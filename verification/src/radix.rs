//! The positional radix renderer: digit alphabets for any base from 2 to
//! 255, colon-delimited digit tokens beyond base 36, the precision budget
//! scaling, and the rendering of integer and fractional magnitudes.
use vstd::prelude::*;
use vstd::arithmetic::power::pow;
use crate::bignum::big_value;
use crate::digits::canon_digits;
use crate::digits::digit_char;
use crate::digits::digits_ok;
use crate::digits::lemma_nat_digits_ok;

verus! {

/// The display token of one positional digit. Up to base 36 a digit is a
/// single character; beyond that it is its own zero-padded decimal
/// numeral, two places below base 100 and three from there up.
pub open spec fn radix_token(d: u8, radix: u8) -> Seq<char>
    recommends
        d < radix,
{
    if radix <= 36 {
        seq![digit_char(d)]
    } else if radix < 100 {
        seq![digit_char(d / 10), digit_char(d % 10)]
    } else {
        seq![digit_char(d / 100), digit_char((d / 10) % 10), digit_char(d % 10)]
    }
}

/// The token separator: digits run together up to base 36 and are joined
/// by colons beyond it, which keeps wide tokens self-delimiting.
pub open spec fn token_sep(radix: u8) -> Seq<char> {
    if radix > 36 {
        seq![':']
    } else {
        Seq::<char>::empty()
    }
}

/// The tokens of a digit sequence joined with the base's separator.
pub open spec fn join_tokens(digits: Seq<u8>, radix: u8) -> Seq<char>
    decreases digits.len(),
{
    if digits.len() == 0 {
        Seq::<char>::empty()
    } else if digits.len() == 1 {
        radix_token(digits[0], radix)
    } else {
        join_tokens(digits.drop_last(), radix) + token_sep(radix) + radix_token(
            digits.last(),
            radix,
        )
    }
}

/// The rendered magnitude of an integer in a base, an optional leading
/// minus sign before its joined digit tokens.
pub open spec fn bigint_radix_string(v: int, radix: u8, negative: bool) -> Seq<char> {
    (if negative {
        seq!['-']
    } else {
        Seq::<char>::empty()
    }) + join_tokens(canon_digits(crate::fractions::abs_int(v) as nat, radix as nat), radix)
}

/// Renders one positional digit as its display token.
pub fn integer_to_radix_char(num: u8, radix: u8) -> (r: String)
    requires
        2 <= radix,
        num < radix,
    ensures
        r@ == radix_token(num, radix),
{
    let mut out = String::new();
    push_token(&mut out, num, radix);
    proof {
        assert(out@ =~= radix_token(num, radix));
    }
    out
}

/// Appends one digit token to the output.
fn push_token(out: &mut String, d: u8, radix: u8)
    requires
        2 <= radix,
        d < radix,
    ensures
        final(out)@ == old(out)@ + radix_token(d, radix),
{
    if radix <= 36 {
        let c: char = if d < 10 {
            (d + 48) as char
        } else {
            (d + 87) as char
        };
        out.push(c);
        proof {
            assert(out@ =~= old(out)@ + radix_token(d, radix));
        }
    } else if radix < 100 {
        out.push((d / 10 + 48) as char);
        out.push((d % 10 + 48) as char);
        proof {
            assert(out@ =~= old(out)@ + radix_token(d, radix));
        }
    } else {
        out.push((d / 100 + 48) as char);
        out.push(((d / 10) % 10 + 48) as char);
        out.push((d % 10 + 48) as char);
        proof {
            assert(out@ =~= old(out)@ + radix_token(d, radix));
        }
    }
}

/// Appends the joined tokens of a digit vector to the output.
fn push_tokens(out: &mut String, digits: &Vec<u8>, radix: u8)
    requires
        2 <= radix,
        digits_ok(digits@, radix as nat),
    ensures
        final(out)@ == old(out)@ + join_tokens(digits@, radix),
{
    let mut i: usize = 0;
    while i < digits.len()
        invariant
            i <= digits@.len(),
            2 <= radix,
            digits_ok(digits@, radix as nat),
            out@ == old(out)@ + join_tokens(digits@.subrange(0, i as int), radix),
        decreases digits@.len() - i,
    {
        if i > 0 {
            if radix > 36 {
                out.push(':');
            }
        }
        push_token(out, digits[i], radix);
        proof {
            let pre = digits@.subrange(0, i as int);
            let cur = digits@.subrange(0, i + 1);
            assert(cur.drop_last() =~= pre);
            assert(cur.last() == digits@[i as int]);
            if i == 0 {
                assert(cur.len() == 1);
                assert(join_tokens(cur, radix) == radix_token(digits@[0], radix));
            }
            assert(out@ =~= old(out)@ + join_tokens(cur, radix));
        }
        i = i + 1;
    }
    proof {
        assert(digits@.subrange(0, digits@.len() as int) =~= digits@);
    }
}

/// Renders an arbitrary-precision integer's magnitude in the given base,
/// prefixing a minus sign when asked to.
pub fn bigint_to_radix_string(num: &num::bigint::BigInt, radix: u8, is_negative: bool) -> (r:
    String)
    requires
        2 <= radix,
    ensures
        r@ == bigint_radix_string(big_value(num), radix, is_negative),
{
    let digits = crate::bignum::big_to_radix_digits(num, radix);
    proof {
        let a = crate::fractions::abs_int(big_value(num)) as nat;
        lemma_nat_digits_ok(a, radix as nat);
        if a == 0 {
            assert(canon_digits(0, radix as nat) == seq![0u8]);
        }
        assert(digits_ok(digits@, radix as nat));
    }
    let mut out = String::new();
    if is_negative {
        out.push('-');
    }
    push_tokens(&mut out, &digits, radix);
    proof {
        assert(out@ =~= bigint_radix_string(big_value(num), radix, is_negative));
    }
    out
}

/// Renders a native 128-bit integer's magnitude in the given base.
pub fn integer_to_radix_string(num: i128, radix: u8, is_negative: bool) -> (r: String)
    requires
        2 <= radix,
    ensures
        r@ == bigint_radix_string(num as int, radix, is_negative),
{
    let b = crate::bignum::big_from_i128(num);
    bigint_to_radix_string(&b, radix, is_negative)
}

/// Integer square root.
fn isqrt_u64(n: u64) -> (r: u64)
    requires
        n <= 2_000_000_000,
    ensures
        r * r <= n < (r + 1) * (r + 1),
        r <= n,
{
    let mut r: u64 = 0;
    let mut done = false;
    while !done
        invariant
            n <= 2_000_000_000,
            r * r <= n,
            r <= n,
            done ==> n < (r + 1) * (r + 1),
        decreases n - r, (if done { 0int } else { 1int }),
    {
        proof {
            assert((r + 1) * (r + 1) <= 4_100_000_000_000_000_000) by (nonlinear_arith)
                requires
                    r + 1 <= 2_000_000_001,
            ;
        }
        let next = (r + 1) * (r + 1);
        if next <= n {
            proof {
                assert(r + 1 <= (r + 1) * (r + 1)) by (nonlinear_arith)
                    requires
                        r >= 0,
                ;
            }
            r = r + 1;
        } else {
            done = true;
        }
    }
    r
}

/// The scaling exponent numerator for a base, in quarters: smaller bases
/// need proportionally more digit positions for the same precision.
pub open spec fn scale_exp(radix: u8) -> nat {
    if radix < 10 {
        1
    } else if radix < 12 {
        3
    } else {
        2
    }
}

/// The scaled fourth power of the decimal digit budget, whose integer
/// fourth root is the base's fractional digit budget.
pub open spec fn scale_quot(radix: u8, maxlen: nat) -> int {
    (pow(maxlen as int, 4) * pow(10, scale_exp(radix))) / pow(radix as int, scale_exp(radix))
}

/// `s` is the fractional digit budget for the base: the floor of the
/// fourth root of the scaled budget quotient.
pub open spec fn rel_scale_ok(radix: u8, maxlen: nat, s: nat) -> bool {
    pow(s as int, 4) <= scale_quot(radix, maxlen) < pow(s as int + 1, 4)
}

/// Computes the fractional digit budget for a base from the remaining
/// decimal digit budget, by exact integer arithmetic.
pub fn rel_scale(radix: u8, maxlen: u32) -> (r: u32)
    requires
        2 <= radix,
        maxlen <= 34,
    ensures
        rel_scale_ok(radix, maxlen as nat, r as nat),
{
    let k: u32 = if radix < 10 {
        1
    } else if radix < 12 {
        3
    } else {
        2
    };
    let p10k: u64 = if radix < 10 {
        10
    } else if radix < 12 {
        1000
    } else {
        100
    };
    proof {
        assert((radix as u64) * (radix as u64) <= 65025) by (nonlinear_arith)
            requires
                radix <= 255,
        ;
        assert((radix as u64) * (radix as u64) * (radix as u64) <= 16581375) by (nonlinear_arith)
            requires
                radix <= 255,
        ;
        assert((radix as u64) * (radix as u64) * (radix as u64) >= 2
            && (radix as u64) * (radix as u64) >= 2) by (nonlinear_arith)
            requires
                radix >= 2,
        ;
    }
    let rk: u64 = if radix < 10 {
        radix as u64
    } else if radix < 12 {
        (radix as u64) * (radix as u64) * (radix as u64)
    } else {
        (radix as u64) * (radix as u64)
    };
    let m = maxlen as u64;
    proof {
        assert(m * m * m * m <= 1_336_336 && m * m <= 1156 && m * m * m <= 39304)
            by (nonlinear_arith)
            requires
                m <= 34,
        ;
    }
    let m4 = m * m * m * m;
    proof {
        assert(m4 * p10k <= 1_336_336_000) by (nonlinear_arith)
            requires
                m4 <= 1_336_336,
                p10k <= 1000,
        ;
    }
    let a = m4 * p10k;
    let q = a / rk;
    proof {
        vstd::arithmetic::div_mod::lemma_div_nonincreasing(a as int, rk as int);
    }
    let s1 = isqrt_u64(q);
    let s = isqrt_u64(s1);
    proof {
        reveal_with_fuel(pow, 5);
        let mi = m as int;
        let ri = radix as int;
        assert(pow(mi, 4) == m4) by (nonlinear_arith)
            requires
                pow(mi, 4) == mi * (mi * (mi * (mi * 1))),
                mi == m,
                m4 == m * m * m * m,
        ;
        assert(pow(10, scale_exp(radix)) == p10k);
        assert(pow(ri, scale_exp(radix)) == rk) by (nonlinear_arith)
            requires
                scale_exp(radix) == 1 ==> pow(ri, scale_exp(radix)) == ri * 1,
                scale_exp(radix) == 2 ==> pow(ri, scale_exp(radix)) == ri * (ri * 1),
                scale_exp(radix) == 3 ==> pow(ri, scale_exp(radix)) == ri * (ri * (ri * 1)),
                1 <= scale_exp(radix) <= 3,
                rk == if scale_exp(radix) == 1 {
                    ri
                } else if scale_exp(radix) == 2 {
                    ri * ri
                } else {
                    ri * ri * ri
                },
        ;
        assert(q == scale_quot(radix, maxlen as nat));
        let si = s as int;
        let s1i = s1 as int;
        assert(pow(si, 4) <= q) by (nonlinear_arith)
            requires
                pow(si, 4) == si * (si * (si * (si * 1))),
                si * si <= s1i,
                s1i * s1i <= q,
                si >= 0,
                s1i >= 0,
        ;
        assert(q < pow(si + 1, 4)) by (nonlinear_arith)
            requires
                pow(si + 1, 4) == (si + 1) * ((si + 1) * ((si + 1) * ((si + 1) * 1))),
                s1i < (si + 1) * (si + 1),
                q < (s1i + 1) * (s1i + 1),
                si >= 0,
                s1i >= 0,
        ;
    }
    s as u32
}

/// The decimal digit budget left for the fractional part: the 34-digit
/// precision minus the digits the integer part already uses.
pub open spec fn maxlen_spec(v: crate::dec128::Dec128) -> nat {
    if v.int_val() == 0 {
        crate::digits::PRECISION as nat
    } else if v.int_digits@.len() <= crate::digits::PRECISION + 1 {
        (crate::digits::PRECISION + 1 - v.int_digits@.len()) as nat
    } else {
        0
    }
}

/// Computes the remaining decimal digit budget of a value.
fn budget(num: &crate::dec128::Dec128) -> (r: u32)
    requires
        num.wf(),
    ensures
        r == maxlen_spec(*num),
        r <= 34,
{
    let int_zero = crate::dec128::digits_all_zero(&num.int_digits);
    if int_zero {
        crate::digits::PRECISION
    } else if num.int_digits.len() <= (crate::digits::PRECISION as usize) + 1 {
        crate::digits::PRECISION + 1 - (num.int_digits.len() as u32)
    } else {
        0
    }
}

/// The whole magnitude scaled into the base: `|v| * radix^s` truncated to
/// an integer, where the value's own scale divides out exactly.
pub open spec fn whole_scaled(v: crate::dec128::Dec128, radix: u8, s: nat) -> int {
    (v.scaled_abs() * pow(radix as int, s)) / pow(10, v.frac_len())
}

/// The fractional part scaled into the base: `0.frac * radix^s` truncated.
pub open spec fn frac_scaled(v: crate::dec128::Dec128, radix: u8, s: nat) -> int {
    (v.frac_val() * pow(radix as int, s)) / pow(10, v.frac_len())
}

/// Renders the full magnitude of a value, integer and fraction combined,
/// as one digit run in the target base, at the base's precision budget.
pub fn float_to_radix_string(num: &crate::dec128::Dec128, radix: u8, is_neg: bool) -> (r: String)
    requires
        num.wf(),
        2 <= radix,
    ensures
        exists|s: nat|
            rel_scale_ok(radix, maxlen_spec(*num), s) && r@ == bigint_radix_string(
                whole_scaled(*num, radix, s),
                radix,
                is_neg,
            ),
{
    let maxlen = budget(num);
    let s = rel_scale(radix, maxlen);
    let mut all = crate::digits::copy_digits(&num.int_digits);
    let mut i: usize = 0;
    let ghost ipart = num.int_digits@;
    while i < num.frac_digits.len()
        invariant
            i <= num.frac_digits@.len(),
            all@ =~= ipart + num.frac_digits@.subrange(0, i as int),
        decreases num.frac_digits@.len() - i,
    {
        all.push(num.frac_digits[i]);
        proof {
            assert(all@ =~= ipart + num.frac_digits@.subrange(0, i + 1));
        }
        i = i + 1;
    }
    proof {
        assert(num.frac_digits@.subrange(0, num.frac_digits@.len() as int)
            =~= num.frac_digits@);
        assert(all@ =~= num.int_digits@ + num.frac_digits@);
        crate::digits::lemma_digits_val_concat(num.int_digits@, num.frac_digits@, 10);
    }
    let ab = crate::bignum::big_from_radix(false, &all, 10);
    let rb = crate::bignum::big_from_i128(radix as i128);
    let mult = crate::bignum::big_pow(&rb, s);
    proof {
        vstd::arithmetic::power::lemma_pow_positive(radix as int, s as nat);
        vstd::arithmetic::mul::lemma_mul_nonnegative(
            big_value(&ab),
            big_value(&mult),
        );
    }
    let prod = crate::bignum::big_mul(&ab, &mult);
    let tb = crate::bignum::big_from_i128(10);
    let pb = crate::bignum::big_pow(&tb, num.frac_digits.len() as u32);
    proof {
        vstd::arithmetic::power::lemma_pow_positive(10, num.frac_len());
    }
    let m = crate::bignum::big_div(&prod, &pb);
    let out = bigint_to_radix_string(&m, radix, is_neg);
    proof {
        let sn = s as nat;
        assert(rel_scale_ok(radix, maxlen_spec(*num), sn) && out@ == bigint_radix_string(
            whole_scaled(*num, radix, sn),
            radix,
            is_neg,
        ));
    }
    out
}

/// The fully rendered numeral of a value in the target base: the signed
/// integer part, then a point and the fractional digits at the base's
/// precision budget with trailing zero digits trimmed; an exhausted
/// fraction drops the point.
pub open spec fn spec_radix_string(v: crate::dec128::Dec128, radix: u8, s: nat) -> Seq<char> {
    let ip = bigint_radix_string(crate::conversions::sat_int(v), radix, v.negative);
    let fs = frac_scaled(v, radix, s) as nat;
    let padded = if s == 0 {
        Seq::<u8>::empty()
    } else {
        crate::digits::zero_digits((s - canon_digits(fs, radix as nat).len()) as nat)
            + canon_digits(fs, radix as nat)
    };
    let trimmed = crate::digits::trim_zeros(padded);
    ip + if trimmed.len() > 0 {
        seq!['.'] + join_tokens(trimmed, radix)
    } else {
        Seq::<char>::empty()
    }
}

/// Renders a decimal value as a numeral string in the target base, per the
/// base's digit alphabet and precision budget.
#[verifier::rlimit(30)]
pub fn d128_to_radix_string(num: &crate::dec128::Dec128, radix: u8) -> (r: String)
    requires
        num.wf(),
        2 <= radix,
    ensures
        exists|s: nat|
            rel_scale_ok(radix, maxlen_spec(*num), s) && r@ == spec_radix_string(
                *num,
                radix,
                s,
            ),
{
    let t = crate::conversions::NumberTemplate::new(num);
    let mut out = integer_to_radix_string(t.integer, radix, num.negative);
    let maxlen = budget(num);
    let s = rel_scale(radix, maxlen);
    let fb = crate::bignum::big_from_radix(false, &num.frac_digits, 10);
    let rb = crate::bignum::big_from_i128(radix as i128);
    let mult = crate::bignum::big_pow(&rb, s);
    proof {
        vstd::arithmetic::power::lemma_pow_positive(radix as int, s as nat);
        vstd::arithmetic::mul::lemma_mul_nonnegative(big_value(&fb), big_value(&mult));
    }
    let prod = crate::bignum::big_mul(&fb, &mult);
    let tb = crate::bignum::big_from_i128(10);
    let pb = crate::bignum::big_pow(&tb, num.frac_digits.len() as u32);
    proof {
        vstd::arithmetic::power::lemma_pow_positive(10, num.frac_len());
    }
    let fm = crate::bignum::big_div(&prod, &pb);
    let fd = crate::bignum::big_to_radix_digits(&fm, radix);
    let ghost fsn = frac_scaled(*num, radix, s as nat) as nat;
    proof {
        assert(big_value(&fm) == frac_scaled(*num, radix, s as nat));
        lemma_nat_digits_ok(fsn, radix as nat);
        if s > 0 {
            crate::digits::lemma_digits_val_bound(num.frac_digits@, 10);
            let f10 = pow(10, num.frac_len());
            let rs = pow(radix as int, s as nat);
            assert((num.frac_val() as int) * rs < rs * f10) by (nonlinear_arith)
                requires
                    (num.frac_val() as int) < f10,
                    rs >= 1,
                    f10 >= 1,
            ;
            vstd::arithmetic::div_mod::lemma_multiply_divide_lt(
                (num.frac_val() as int) * rs,
                f10,
                rs,
            );
            crate::digits::lemma_canon_len_le(fsn, radix as nat, s as nat);
        }
    }
    let mut padded: Vec<u8> = Vec::new();
    if s > 0 {
        let pad = (s as usize) - fd.len();
        let mut i: usize = 0;
        while i < pad
            invariant
                i <= pad,
                padded@ =~= crate::digits::zero_digits(i as nat),
            decreases pad - i,
        {
            padded.push(0u8);
            proof {
                assert(padded@ =~= crate::digits::zero_digits((i + 1) as nat));
            }
            i = i + 1;
        }
        let mut k: usize = 0;
        while k < fd.len()
            invariant
                k <= fd@.len(),
                padded@ =~= crate::digits::zero_digits(pad as nat) + fd@.subrange(0, k as int),
            decreases fd@.len() - k,
        {
            padded.push(fd[k]);
            proof {
                assert(padded@ =~= crate::digits::zero_digits(pad as nat) + fd@.subrange(
                    0,
                    k + 1,
                ));
            }
            k = k + 1;
        }
        proof {
            assert(fd@.subrange(0, fd@.len() as int) =~= fd@);
        }
    }
    let trimmed = crate::digits::trim_trailing_zeros(&padded);
    proof {
        crate::digits::lemma_trim_zeros_prefix(padded@);
        assert(digits_ok(padded@, radix as nat)) by {
            if s > 0 {
                assert(forall|i: int|
                    0 <= i < padded@.len() ==> (#[trigger] padded@[i])
                        == (crate::digits::zero_digits((s as nat
                        - canon_digits(fsn, radix as nat).len()) as nat) + canon_digits(
                        fsn,
                        radix as nat,
                    ))[i]);
            }
        }
        assert(digits_ok(trimmed@, radix as nat)) by {
            assert(forall|i: int|
                0 <= i < trimmed@.len() ==> (#[trigger] trimmed@[i]) == padded@[i]);
        }
    }
    if trimmed.len() > 0 {
        out.push('.');
        push_tokens(&mut out, &trimmed, radix);
    }
    proof {
        let sn = s as nat;
        assert(out@ =~= spec_radix_string(*num, radix, sn));
        assert(rel_scale_ok(radix, maxlen_spec(*num), sn) && out@ == spec_radix_string(
            *num,
            radix,
            sn,
        ));
    }
    out
}


/// For a base at most 36 every token is one character, so joined tokens
/// are exactly the digit characters.
pub proof fn lemma_join_tokens_small(d: Seq<u8>, radix: u8)
    requires
        radix <= 36,
    ensures
        join_tokens(d, radix) == crate::digits::digit_chars(d),
    decreases d.len(),
{
    if d.len() == 0 {
        assert(crate::digits::digit_chars(d) =~= Seq::<char>::empty());
    } else if d.len() == 1 {
        assert(crate::digits::digit_chars(d) =~= radix_token(d[0], radix));
    } else {
        lemma_join_tokens_small(d.drop_last(), radix);
        assert(crate::digits::digit_chars(d) =~= crate::digits::digit_chars(d.drop_last())
            + radix_token(d.last(), radix));
        assert(join_tokens(d, radix) =~= join_tokens(d.drop_last(), radix) + radix_token(
            d.last(),
            radix,
        ));
    }
}

/// Fourth powers respect the order of their bases.
proof fn lemma_pow4_le(a: int, b: int)
    requires
        0 <= a <= b,
    ensures
        pow(a, 4) <= pow(b, 4),
{
    reveal_with_fuel(pow, 5);
    assert(a * (a * (a * (a * 1))) <= b * (b * (b * (b * 1)))) by (nonlinear_arith)
        requires
            0 <= a <= b,
    ;
}

/// The digit budget a base admits is unique: any two scales satisfying
/// the budget bounds coincide, so the scale named in the rendering
/// contracts is fully determined by the value and the base.
pub proof fn lemma_rel_scale_unique(radix: u8, maxlen: nat, s1: nat, s2: nat)
    requires
        rel_scale_ok(radix, maxlen, s1),
        rel_scale_ok(radix, maxlen, s2),
    ensures
        s1 == s2,
{
    if s1 < s2 {
        lemma_pow4_le(s1 as int + 1, s2 as int);
    }
    if s2 < s1 {
        lemma_pow4_le(s2 as int + 1, s1 as int);
    }
}

/// Rendering at base ten matches the plain decimal template rendering:
/// the same sign and integer digits, and the same fractional digits after
/// trailing-zero trimming. This holds for every value within the 34-digit
/// precision budget with at most 32 fractional digits; beyond the budget
/// the two renderers clip at different scales and may keep different
/// digits.
#[verifier::rlimit(60)]
pub proof fn lemma_radix_ten_matches_plain(
    v: crate::dec128::Dec128,
    s: nat,
    t: crate::conversions::NumberTemplate,
)
    requires
        v.wf(),
        rel_scale_ok(10, maxlen_spec(v), s),
        t.is_negative == v.negative,
        t.integer == crate::conversions::sat_int(v),
        t.decimals@ == crate::conversions::decimals_of(v),
        v.int_digits@.len() + v.frac_len() <= 34,
        v.frac_len() <= 32,
    ensures
        spec_radix_string(v, 10, s) == crate::conversions::template_string(t),
{
    let m = maxlen_spec(v);
    // The base-ten budget quotient collapses to the fourth power of the
    // decimal budget itself, so the derived scale is the budget exactly.
    assert(s == m) by {
        reveal_with_fuel(pow, 5);
        assert(pow(10, scale_exp(10)) == 1000);
        vstd::arithmetic::div_mod::lemma_div_multiples_vanish(pow(m as int, 4), 1000);
        assert(pow(m as int, 4) * 1000 == 1000 * pow(m as int, 4)) by (nonlinear_arith);
        assert(scale_quot(10, m) == pow(m as int, 4));
        if s < m {
            lemma_pow4_le(s as int + 1, m as int);
        }
        if s > m {
            lemma_pow4_le(m as int + 1, s as int);
            assert(pow(m as int, 4) < pow(m as int + 1, 4)) by {
                assert(m * (m * (m * (m * 1))) < (m + 1) * ((m + 1) * ((m + 1) * ((m + 1)
                    * 1)))) by (nonlinear_arith)
                    requires
                        m >= 0,
                ;
            }
        }
    }
    let f = v.frac_len();
    let fval = v.frac_val();
    let p10f = pow(10, f);
    vstd::arithmetic::power::lemma_pow_positive(10, f);
    let sat = crate::conversions::sat_int(v);
    let ipart = bigint_radix_string(sat, 10, v.negative);
    lemma_join_tokens_small(canon_digits(sat as nat, 10), 10);
    assert(ipart == (if v.negative {
        seq!['-']
    } else {
        Seq::<char>::empty()
    }) + crate::digits::digit_chars(canon_digits(t.integer as nat, 10)));
    // s is at least the fractional scale: the budget keeps every digit.
    assert(s >= f) by {
        if v.int_val() > 0 {
            assert(v.int_digits@.len() >= 1);
        }
    }
    let frac = v.frac_digits@;
    if fval == 0 {
        // A zero fraction trims away entirely on both sides.
        assert(frac_scaled(v, 10, s) == 0) by {
            assert(fval * pow(10, s as nat) == 0) by (nonlinear_arith)
                requires
                    fval == 0,
            ;
            vstd::arithmetic::div_mod::lemma_div_of0(p10f);
        }
        let padded = if s == 0 {
            Seq::<u8>::empty()
        } else {
            crate::digits::zero_digits((s - canon_digits(0, 10).len()) as nat) + canon_digits(
                0,
                10,
            )
        };
        assert(crate::digits::trim_zeros(padded).len() == 0) by {
            if s == 0 {
            } else {
                assert(forall|i: int| 0 <= i < padded.len() ==> (#[trigger] padded[i]) == 0);
                crate::digits::lemma_trim_all_zeros(padded);
            }
        }
        crate::dec128::lemma_digits_val_zero(frac);
        let dec = crate::conversions::decimals_of(v);
        assert(crate::digits::trim_zeros(dec).len() == 0) by {
            assert(forall|i: int| 0 <= i < dec.len() ==> (#[trigger] dec[i]) == 0);
            crate::digits::lemma_trim_all_zeros(dec);
        }
        assert(spec_radix_string(v, 10, s) =~= crate::conversions::template_string(t));
    } else {
        // The fraction's significant digits survive both budgets whole.
        let lz = crate::digits::lead_zeros(frac);
        crate::digits::lemma_lead_zeros_inv(frac);
        assert(lz < f) by {
            if lz == f {
                crate::dec128::lemma_digits_val_zero(frac);
            }
        }
        let msd = frac.subrange(lz as int, f as int);
        assert(frac =~= crate::digits::zero_digits(lz) + msd);
        crate::digits::lemma_digits_val_prepend_zeros(msd, 10, lz);
        assert(crate::digits::canon_ok(msd, 10));
        crate::digits::lemma_canon_unique(msd, 10);
        assert(msd == canon_digits(fval, 10));
        // The scaled fraction is the digit block shifted left.
        let shift = (s - f) as nat;
        assert(frac_scaled(v, 10, s) == fval * pow(10, shift)) by {
            vstd::arithmetic::power::lemma_pow_adds(10, shift, f);
            vstd::arithmetic::power::lemma_pow_positive(10, shift);
            assert(fval * (pow(10, shift) * p10f) == p10f * (fval * pow(10, shift)))
                by (nonlinear_arith);
            vstd::arithmetic::div_mod::lemma_div_multiples_vanish(
                fval as int * pow(10, shift),
                p10f,
            );
        }
        crate::digits::lemma_canon_mul_pow10(fval, shift);
        let cfs = canon_digits((fval * pow(10, shift)) as nat, 10);
        assert(cfs == msd + crate::digits::zero_digits(shift));
        assert(cfs.len() == (f - lz) + shift);
        let padded = crate::digits::zero_digits((s - cfs.len()) as nat) + cfs;
        assert((s - cfs.len()) as nat == lz);
        // Both renderings trim to the same digit block.
        assert(crate::digits::trim_zeros(msd).len() > 0) by {
            crate::digits::lemma_trim_zeros_inv(msd);
            if crate::digits::trim_zeros(msd).len() == 0 {
                assert(msd[0] == 0);
            }
        }
        assert(crate::digits::trim_zeros(padded) == crate::digits::zero_digits(lz)
            + crate::digits::trim_zeros(msd)) by {
            assert(padded =~= (crate::digits::zero_digits(lz) + msd)
                + crate::digits::zero_digits(shift));
            crate::digits::lemma_trim_append_zeros(crate::digits::zero_digits(lz) + msd, shift);
            crate::digits::lemma_trim_concat(crate::digits::zero_digits(lz), msd);
        }
        let dec = crate::conversions::decimals_of(v);
        let scale = crate::conversions::scale_of(v);
        assert(scale >= f) by {
            assert(crate::conversions::sig_frac_digits(v) == f - lz);
        }
        assert(crate::digits::trim_zeros(dec) == crate::digits::zero_digits(lz)
            + crate::digits::trim_zeros(msd)) by {
            if scale <= f {
                assert(dec =~= frac);
                assert(dec =~= (crate::digits::zero_digits(lz) + msd)
                    + crate::digits::zero_digits(0));
            } else {
                assert(dec =~= (crate::digits::zero_digits(lz) + msd)
                    + crate::digits::zero_digits((scale - f) as nat));
            }
            crate::digits::lemma_trim_append_zeros(
                crate::digits::zero_digits(lz) + msd,
                if scale <= f {
                    0nat
                } else {
                    (scale - f) as nat
                },
            );
            crate::digits::lemma_trim_concat(crate::digits::zero_digits(lz), msd);
        }
        lemma_join_tokens_small(crate::digits::trim_zeros(padded), 10);
        assert(spec_radix_string(v, 10, s) =~= crate::conversions::template_string(t));
    }
}

/// Strips trailing `00` zero-tokens from a colon-joined fractional digit
/// string, never touching interior zero tokens.
pub open spec fn clean_pv(s: Seq<char>) -> Seq<char>
    decreases s.len(),
{
    if s.len() >= 3 && s[s.len() - 3] == ':' && s[s.len() - 2] == '0' && s[s.len() - 1] == '0' {
        clean_pv(s.subrange(0, s.len() - 3))
    } else if s.len() == 2 && s[0] == '0' && s[1] == '0' {
        Seq::<char>::empty()
    } else {
        s
    }
}

/// Removes trailing `:00` zero-tokens (and a lone leading `00` token) from
/// a colon-joined digit string, from the end inward, stopping at the first
/// other token.
pub fn clean_radix_pv_string(num_str: String) -> (r: String)
    ensures
        r@ == clean_pv(num_str@),
{
    let s = num_str.as_str();
    let len = s.unicode_len();
    let mut k = len;
    proof {
        assert(s@.subrange(0, len as int) =~= s@);
    }
    while k >= 3 && s.get_char(k - 3) == ':' && s.get_char(k - 2) == '0' && s.get_char(k - 1)
        == '0'
        invariant
            k <= len == s@.len(),
            clean_pv(s@) == clean_pv(s@.subrange(0, k as int)),
        decreases k,
    {
        proof {
            assert(s@.subrange(0, k as int).subrange(0, k - 3) =~= s@.subrange(0, k - 3));
        }
        k = k - 3;
    }
    if k == 2 && s.get_char(0) == '0' && s.get_char(1) == '0' {
        proof {
            assert(s@.subrange(0, 2)[0] == s@[0] && s@.subrange(0, 2)[1] == s@[1]);
        }
        return String::new();
    }
    let mut out = String::new();
    let mut i: usize = 0;
    while i < k
        invariant
            i <= k <= s@.len(),
            out@ =~= s@.subrange(0, i as int),
        decreases k - i,
    {
        out.push(s.get_char(i));
        proof {
            assert(out@ =~= s@.subrange(0, i + 1));
        }
        i = i + 1;
    }
    proof {
        let cut = s@.subrange(0, k as int);
        assert(out@ =~= cut);
        assert(clean_pv(cut) == cut) by {
            if cut.len() >= 3 {
                assert(cut[cut.len() - 3] == s@[k - 3]);
            }
        }
    }
    out
}

} // verus!
