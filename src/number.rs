use vstd::prelude::*;
use vstd::arithmetic::power2::{pow2, lemma_pow2_unfold, lemma_pow2_pos, lemma_pow2_strictly_increases, lemma2_to64, lemma2_to64_rest};
use vstd::arithmetic::div_mod::lemma_div_denominator;
use crate::text::push_char;

verus! {

pub open spec fn is_digit(c: char) -> bool {
    '0' <= c && c <= '9'
}

pub open spec fn digit_of(c: char) -> int {
    (c as int) - ('0' as int)
}

pub open spec fn digit_char(d: int) -> char {
    ((d + ('0' as int)) as u32) as char
}

/// Value of a sequence of decimal digits, most significant first.
pub open spec fn digits_value(s: Seq<char>) -> int
    decreases s.len(),
{
    if s.len() == 0 {
        0
    } else {
        digits_value(s.drop_last()) * 10 + digit_of(s.last())
    }
}

pub open spec fn all_digits(s: Seq<char>) -> bool {
    forall|i: int| 0 <= i < s.len() ==> is_digit(#[trigger] s[i])
}

/// The integer written by a numeral: an optional sign and one or more decimal digits.
pub open spec fn numeral_value(s: Seq<char>) -> Option<int> {
    if s.len() > 0 && (s[0] == '-' || s[0] == '+') {
        let d = s.drop_first();
        if d.len() > 0 && all_digits(d) {
            Some(if s[0] == '-' { -digits_value(d) } else { digits_value(d) })
        } else {
            None
        }
    } else if s.len() > 0 && all_digits(s) {
        Some(digits_value(s))
    } else {
        None
    }
}

pub open spec fn fits_i128(v: int) -> bool {
    i128::MIN <= v <= i128::MAX
}

/// The 128-bit integer that a numeral denotes, when it denotes one.
pub open spec fn numeral_i128(s: Seq<char>) -> Option<i128> {
    match numeral_value(s) {
        Some(v) => if fits_i128(v) { Some(v as i128) } else { None },
        None => None,
    }
}

/// Decimal digits of a natural number, without leading zeros.
pub open spec fn nat_text(n: nat) -> Seq<char>
    decreases n,
{
    if n < 10 {
        seq![digit_char(n as int)]
    } else {
        nat_text(n / 10).push(digit_char(n as int % 10))
    }
}

/// Canonical decimal text of an integer.
pub open spec fn int_text(v: int) -> Seq<char> {
    if v < 0 {
        seq!['-'] + nat_text((-v) as nat)
    } else {
        nat_text(v as nat)
    }
}

proof fn lemma_digits_grow(s: Seq<char>, i: int)
    requires
        0 <= i <= s.len(),
        all_digits(s),
    ensures
        digits_value(s.take(i)) <= digits_value(s),
        0 <= digits_value(s.take(i)),
    decreases s.len() - i,
{
    if i < s.len() {
        lemma_digits_grow(s, i + 1);
        assert(s.take(i + 1).drop_last() =~= s.take(i));
        assert(is_digit(s[i]));
    } else {
        assert(s.take(i) =~= s);
        lemma_digits_nonneg(s);
    }
}

pub proof fn lemma_digits_nonneg(s: Seq<char>)
    requires
        all_digits(s),
    ensures
        0 <= digits_value(s),
    decreases s.len(),
{
    if s.len() > 0 {
        assert(is_digit(s[s.len() - 1]));
        lemma_digits_nonneg(s.drop_last());
    }
}

/// Reads a numeral as a 128-bit integer.
pub fn parse_i128(s: &str) -> (r: Option<i128>)
    ensures
        r == numeral_i128(s@),
{
    let n = s.unicode_len();
    if n == 0 {
        return None;
    }
    let first = s.get_char(0);
    let neg = first == '-';
    let start: usize = if first == '-' || first == '+' { 1 } else { 0 };
    if start == n {
        return None;
    }
    let ghost d = s@.skip(start as int);
    assert(start == 1 ==> d =~= s@.drop_first());
    assert(start == 0 ==> d =~= s@);
    // the largest magnitude that fits: 2^127 below zero, 2^127 - 1 above
    let limit: u128 = if neg { 0x8000_0000_0000_0000_0000_0000_0000_0000 } else { 0x7fff_ffff_ffff_ffff_ffff_ffff_ffff_ffff };
    let mut acc: u128 = 0;
    let mut big = false;
    let mut i: usize = start;
    while i < n
        invariant
            n == s@.len(),
            start <= i <= n,
            d == s@.skip(start as int),
            start == 1 ==> d == s@.drop_first(),
            start == 0 ==> d == s@,
            n > 0,
            (start == 1) == (s@[0] == '-' || s@[0] == '+'),
            start <= 1,
            neg == (s@[0] == '-'),
            limit == (if neg { 0x8000_0000_0000_0000_0000_0000_0000_0000u128 } else { 0x7fff_ffff_ffff_ffff_ffff_ffff_ffff_ffffu128 }),
            all_digits(d.take(i - start)),
            !big ==> acc == digits_value(d.take(i - start)),
            !big ==> acc <= limit,
            big ==> digits_value(d.take(i - start)) > limit,
        decreases n - i,
    {
        let c = s.get_char(i);
        assert(d[i - start] == c);
        if c < '0' || c > '9' {
            assert(!is_digit(d[i - start]));
            assert(!all_digits(d));
            return None;
        }
        let dg: u128 = (c as u32 - '0' as u32) as u128;
        assert(dg <= 9);
        let ghost k = i - start;
        assert(d.take(k + 1).drop_last() =~= d.take(k));
        assert(d.take(k + 1).last() == c);
        assert(all_digits(d.take(k + 1))) by {
            assert forall|j: int| 0 <= j < k + 1 implies is_digit(#[trigger] d.take(k + 1)[j]) by {
                if j < k {
                    assert(d.take(k + 1)[j] == d.take(k)[j]);
                }
            }
        }
        if !big {
            if acc > (limit - dg) / 10 {
                big = true;
                assert(digits_value(d.take(k + 1)) == acc * 10 + dg);
                assert(acc * 10 + dg > limit) by (nonlinear_arith)
                    requires acc > (limit - dg) / 10, dg <= 9, limit >= 9;
            } else {
                assert(acc * 10 + dg <= limit) by (nonlinear_arith)
                    requires acc <= (limit - dg) / 10, dg <= 9, limit >= 9;
                acc = acc * 10 + dg;
            }
        } else {
            proof {
                lemma_digits_grow(d.take(k + 1), k);
                assert(d.take(k + 1).take(k) =~= d.take(k));
            }
        }
        i = i + 1;
    }
    assert(d.take(n - start) =~= d);
    if big {
        None
    } else if neg {
        if acc == limit {
            Some(i128::MIN)
        } else {
            Some(-(acc as i128))
        }
    } else {
        Some(acc as i128)
    }
}

/// Appends the decimal digits of `n`.
fn push_nat(s: &mut String, n: u128)
    ensures
        final(s)@ == old(s)@ + nat_text(n as nat),
    decreases n,
{
    if n >= 10 {
        push_nat(s, n / 10);
    }
    let c = ((n % 10) as u8 + 48u8) as char;
    assert(c == digit_char(n as int % 10));
    push_char(s, c);
    proof {
        if n >= 10 {
            assert(nat_text(n as nat) == nat_text((n / 10) as nat).push(c));
        } else {
            assert(nat_text(n as nat) =~= seq![c]);
        }
    }
    assert(s@ =~= old(s)@ + nat_text(n as nat));
}

/// Decimal text of a 128-bit integer.
pub fn format_i128(v: i128) -> (r: String)
    ensures
        r@ == int_text(v as int),
{
    let mut s = String::new();
    if v < 0 {
        push_char(&mut s, '-');
        let m: u128 = (-(v + 1)) as u128 + 1;
        push_nat(&mut s, m);
    } else {
        push_nat(&mut s, v as u128);
    }
    assert(s@ =~= int_text(v as int));
    s
}

/// An integer numeral whose value is computed on demand and then kept.
#[derive(Clone, Debug)]
pub struct Integral {
    pub txt: String,
    pub val: Option<i128>,
}

impl Integral {
    /// The value the numeral stands for: the kept value, else what its text denotes.
    pub open spec fn value(&self) -> Option<i128> {
        match self.val {
            Some(v) => Some(v),
            None => numeral_i128(self.txt@),
        }
    }

    /// A numeral for a known integer, its value already computed.
    pub fn new(v: i128) -> (r: Integral)
        ensures
            r.val == Some(v),
            r.txt@ == int_text(v as int),
    {
        Integral { txt: format_i128(v), val: Some(v) }
    }

    /// A numeral kept as text, not yet computed.
    pub fn from_text(txt: String) -> (r: Integral)
        ensures
            r.txt == txt,
            r.val.is_none(),
    {
        Integral { txt, val: None }
    }

    /// The integer value, computed from the text when it is not kept yet.
    pub fn integer(&self) -> (r: Option<i128>)
        ensures
            r == self.value(),
    {
        match self.val {
            Some(v) => Some(v),
            None => parse_i128(self.txt.as_str()),
        }
    }

    /// Computes the value and keeps it; fails when the text is no 128-bit integer.
    pub fn compute(&mut self) -> (r: Result<(), String>)
        ensures
            final(self).txt == old(self).txt,
            r.is_ok() == old(self).value().is_some(),
            r.is_ok() ==> final(self).val == old(self).value(),
            r.is_err() ==> final(self).val == old(self).val,
    {
        match self.val {
            Some(_) => Ok(()),
            None => match parse_i128(self.txt.as_str()) {
                Some(v) => {
                    self.val = Some(v);
                    Ok(())
                },
                None => Err(String::from_str("invalid integer numeral")),
            },
        }
    }
}

pub open spec fn exp_bits(b: u64) -> u64 {
    (b >> 52u64) & 0x7ffu64
}

pub open spec fn frac_bits(b: u64) -> u64 {
    b & 0xf_ffff_ffff_ffffu64
}

pub open spec fn sign_bit(b: u64) -> bool {
    (b >> 63u64) == 1u64
}

pub open spec fn is_nan_bits(b: u64) -> bool {
    exp_bits(b) == 0x7ff && frac_bits(b) != 0
}

pub open spec fn is_infinite_bits(b: u64) -> bool {
    exp_bits(b) == 0x7ff && frac_bits(b) == 0
}

/// Significand as an integer: the float's magnitude is `mantissa * 2^(exponent - 1075)`.
pub open spec fn mantissa(b: u64) -> nat {
    if exp_bits(b) == 0 {
        frac_bits(b) as nat
    } else {
        frac_bits(b) as nat + pow2(52)
    }
}

pub open spec fn biased_exp(b: u64) -> int {
    if exp_bits(b) == 0 {
        1
    } else {
        exp_bits(b) as int
    }
}

/// Magnitude of the float, rounded toward zero (infinity counts as its huge bit pattern).
pub open spec fn trunc_magnitude(b: u64) -> nat {
    if biased_exp(b) >= 1075 {
        mantissa(b) * pow2((biased_exp(b) - 1075) as nat)
    } else {
        mantissa(b) / pow2((1075 - biased_exp(b)) as nat)
    }
}

/// What `as i128` gives for the float: truncated toward zero, saturated at the
/// ends of the range, and zero for NaN.
pub open spec fn float_as_i128(b: u64) -> int {
    if is_nan_bits(b) {
        0
    } else if sign_bit(b) {
        if trunc_magnitude(b) > pow2(127) {
            i128::MIN as int
        } else {
            -(trunc_magnitude(b) as int)
        }
    } else {
        if trunc_magnitude(b) > i128::MAX {
            i128::MAX as int
        } else {
            trunc_magnitude(b) as int
        }
    }
}

/// Key that orders non-NaN floats as numbers: the magnitude bits, negated
/// for a negative sign, so that both zeros meet.
pub open spec fn float_key(b: u64) -> int {
    if sign_bit(b) {
        -((b & 0x7fff_ffff_ffff_ffffu64) as int)
    } else {
        (b & 0x7fff_ffff_ffff_ffffu64) as int
    }
}

/// A floating-point number, kept as the text it was written with and the
/// IEEE-754 encoding of its value.
#[derive(Clone, Debug)]
pub struct Floating {
    pub txt: String,
    pub bits: u64,
}

impl Floating {
    pub fn new(txt: String, bits: u64) -> (r: Floating)
        ensures
            r.txt == txt,
            r.bits == bits,
    {
        Floating { txt, bits }
    }

    pub fn is_nan(&self) -> (r: bool)
        ensures
            r == is_nan_bits(self.bits),
    {
        ((self.bits >> 52u64) & 0x7ffu64) == 0x7ff && (self.bits & 0xf_ffff_ffff_ffffu64) != 0
    }

    pub fn key(&self) -> (r: i128)
        ensures
            r as int == float_key(self.bits),
    {
        let m = self.bits & 0x7fff_ffff_ffff_ffffu64;
        if (self.bits >> 63u64) == 1u64 {
            -(m as i128)
        } else {
            m as i128
        }
    }

    /// The float truncated toward zero as a 128-bit integer, as `as i128` does.
    pub fn truncate(&self) -> (r: i128)
        ensures
            r as int == float_as_i128(self.bits),
    {
        let b = self.bits;
        if self.is_nan() {
            return 0;
        }
        let e: u64 = (b >> 52u64) & 0x7ffu64;
        let f: u64 = b & 0xf_ffff_ffff_ffffu64;
        proof {
            lemma2_to64();
            lemma2_to64_rest();
            assert(f < 0x10_0000_0000_0000u64) by (bit_vector)
                requires f == b & 0xf_ffff_ffff_ffffu64;
            assert(e <= 0x7ff) by (bit_vector)
                requires e == (b >> 52u64) & 0x7ffu64;
        }
        let m: u128 = if e == 0 { f as u128 } else { f as u128 + 0x10_0000_0000_0000u128 };
        let be: u64 = if e == 0 { 1 } else { e };
        assert(m == mantissa(b));
        assert((m as int) < pow2(53)) by {
            lemma_pow2_unfold(53);
        }
        let neg = (b >> 63u64) == 1u64;
        let mag: u128;
        let over: bool;
        if be >= 1075 {
            let sh = be - 1075;
            if sh >= 75 {
                // the significand has its top bit at 2^52 here, so the magnitude is at least 2^127
                proof {
                    assert(e != 0);
                    if sh > 75 {
                        lemma_pow2_strictly_increases(75, sh as nat);
                    }
                    lemma_pow2_adds(52, 75);
                    assert(pow2(52) * pow2(75) <= mantissa(b) * pow2(sh as nat)) by (nonlinear_arith)
                        requires pow2(52) <= mantissa(b), pow2(75) <= pow2(sh as nat);
                    assert(pow2(127) <= trunc_magnitude(b));
                }
                over = true;
                mag = 0;
            } else {
                let mut x: u128 = m;
                let mut k: u64 = 0;
                while k < sh
                    invariant
                        k <= sh,
                        sh < 75,
                        (m as int) < pow2(53),
                        x as int == (m as int) * pow2(k as nat),
                        (x as int) < pow2((53 + k) as nat),
                    decreases sh - k,
                {
                    proof {
                        lemma_pow2_unfold((k + 1) as nat);
                        lemma_pow2_unfold((53 + k + 1) as nat);
                        lemma_pow2_strictly_increases((53 + k + 1) as nat, 128);
                        lemma_pow2_128();
                        assert(m * pow2((k + 1) as nat) == 2 * (m * pow2(k as nat))) by (nonlinear_arith)
                            requires pow2((k + 1) as nat) == 2 * pow2(k as nat);
                    }
                    x = x * 2;
                    k = k + 1;
                }
                mag = x;
                over = false;
            }
        } else {
            let sh = 1075 - be;
            let mut x: u128 = m;
            let mut k: u64 = 0;
            while k < sh
                invariant
                    k <= sh,
                    x as int == (m as int) / (pow2(k as nat) as int),
                decreases sh - k,
            {
                proof {
                    lemma_pow2_pos(k as nat);
                    lemma_div_denominator(m as int, pow2(k as nat) as int, 2);
                    lemma_pow2_unfold((k + 1) as nat);
                    assert(pow2(k as nat) * 2 == pow2((k + 1) as nat));
                }
                x = x / 2;
                k = k + 1;
                if x == 0 {
                    proof {
                        lemma_pow2_pos(sh as nat);
                        lemma_pow2_adds(k as nat, (sh - k) as nat);
                        lemma_pow2_pos((sh - k) as nat);
                        lemma_div_denominator(m as int, pow2(k as nat) as int, pow2((sh - k) as nat) as int);
                    }
                    k = sh;
                }
            }
            mag = x;
            over = false;
        }
        proof {
            lemma_pow2_128();
        }
        if neg {
            if over || mag > 0x8000_0000_0000_0000_0000_0000_0000_0000u128 {
                i128::MIN
            } else if mag == 0x8000_0000_0000_0000_0000_0000_0000_0000u128 {
                i128::MIN
            } else {
                -(mag as i128)
            }
        } else {
            if over || mag > 0x7fff_ffff_ffff_ffff_ffff_ffff_ffff_ffffu128 {
                i128::MAX
            } else {
                mag as i128
            }
        }
    }
}

proof fn lemma_pow2_adds(a: nat, b: nat)
    ensures
        pow2(a) * pow2(b) == pow2(a + b),
{
    vstd::arithmetic::power2::lemma_pow2_adds(a, b);
}

proof fn lemma_pow2_128()
    ensures
        pow2(127) == 0x8000_0000_0000_0000_0000_0000_0000_0000,
        pow2(128) == 0x1_0000_0000_0000_0000_0000_0000_0000_0000,
{
    lemma2_to64();
    lemma2_to64_rest();
    vstd::arithmetic::power2::lemma_pow2_adds(64, 63);
    vstd::arithmetic::power2::lemma_pow2_adds(64, 64);
}

} // verus!
