//! The decimal decomposer: splitting a decimal value into sign, integer
//! magnitude and exact fractional digits, floor and ceiling primitives,
//! conversions to native integers, and the base-10 display template.
use vstd::prelude::*;
use vstd::arithmetic::power::pow;
use crate::dec128::Dec128;
use crate::dec128::digits_all_zero;
use crate::digits::canon_digits;
use crate::digits::complement_digits;
use crate::digits::copy_digits;
use crate::digits::digit_chars;
use crate::digits::digits_ok;
use crate::digits::digits_to_u128_checked;
use crate::digits::digits_val;
use crate::digits::increment_digits;
use crate::digits::lead_zeros;
use crate::digits::lemma_digits_val_bound;
use crate::digits::lemma_lead_zeros_at;
use crate::digits::push_digits;
use crate::digits::trim_trailing_zeros;
use crate::digits::trim_zeros;
use crate::digits::u128_to_digits;
use crate::digits::zero_digits;

verus! {

/// The value truncated toward zero, as a mathematical integer.
pub open spec fn trunc_val(v: Dec128) -> int {
    if v.negative {
        -(v.int_val() as int)
    } else {
        v.int_val() as int
    }
}

/// Splits a decimal value into its sign, the digits of its truncated
/// absolute integer part, and its exact fractional digit sequence.
pub fn d128_to_parts(num: &Dec128) -> (r: (bool, String, String))
    requires
        num.wf(),
    ensures
        r.0 == num.negative,
        r.1@ == digit_chars(num.int_digits@),
        r.2@ == digit_chars(num.frac_digits@),
{
    let mut int_str = String::new();
    push_digits(&mut int_str, &num.int_digits);
    let mut frac_str = String::new();
    push_digits(&mut frac_str, &num.frac_digits);
    (num.negative, int_str, frac_str)
}

/// The integer-part string of the value, sign included.
pub fn first_d128_part(num: &Dec128) -> (r: String)
    requires
        num.wf(),
    ensures
        r@ == (if num.negative {
            seq!['-']
        } else {
            Seq::<char>::empty()
        }) + digit_chars(num.int_digits@),
{
    let mut out = String::new();
    if num.negative {
        out.push('-');
    }
    push_digits(&mut out, &num.int_digits);
    proof {
        assert(out@ =~= (if num.negative {
            seq!['-']
        } else {
            Seq::<char>::empty()
        }) + digit_chars(num.int_digits@));
    }
    out
}

/// The fractional-part digit string of the value.
pub fn last_d128_part(num: &Dec128) -> (r: String)
    requires
        num.wf(),
    ensures
        r@ == digit_chars(num.frac_digits@),
{
    let mut out = String::new();
    push_digits(&mut out, &num.frac_digits);
    out
}

/// The greatest integer at or below the value, plus the nonnegative
/// remainder `v - floor(v)`, held at the value's own fractional scale.
pub fn floor_d128(num: &Dec128) -> (r: (Dec128, Dec128))
    requires
        num.wf(),
    ensures
        r.0.wf(),
        r.1.wf(),
        r.0.frac_len() == 0,
        !r.1.negative,
        r.1.int_val() == 0,
        r.1.frac_len() == num.frac_len(),
        num.signed_scaled() == r.0.signed_scaled() * pow(10, num.frac_len())
            + r.1.frac_val(),
{
    let frac_zero = digits_all_zero(&num.frac_digits);
    let mut zero_int: Vec<u8> = Vec::new();
    zero_int.push(0u8);
    proof {
        assert(zero_int@ =~= seq![0u8]);
        assert(digits_val(zero_int@, 10) == digits_val(zero_int@.drop_last(), 10) * 10 + 0);
        vstd::arithmetic::power::lemma_pow_positive(10, num.frac_len());
    }
    if frac_zero || !num.negative {
        // Truncation already is the floor.
        let whole = Dec128 {
            negative: num.negative && !frac_zero_is_zero_int(num, frac_zero),
            int_digits: copy_digits(&num.int_digits),
            frac_digits: Vec::new(),
        };
        let rem = Dec128 {
            negative: false,
            int_digits: zero_int,
            frac_digits: copy_digits(&num.frac_digits),
        };
        proof {
            let f = num.frac_len();
            assert(whole.negative ==> whole.int_val() > 0);
            if num.negative {
                assert(num.frac_val() == 0);
                assert(num.int_val() > 0);
            }
            assert(whole.scaled_abs() == num.int_val()) by {
                vstd::arithmetic::power::lemma_pow0(10);
            }
            let p = pow(10, f);
            let a = num.int_val() as int;
            assert((-a) * p == -(a * p)) by (nonlinear_arith);
        }
        (whole, rem)
    } else {
        // A negative value with a nonzero fraction: step one below the
        // truncation and complement the fractional digits.
        proof {
            lemma_digits_val_bound(num.frac_digits@, 10);
        }
        let inc = increment_digits(&num.int_digits);
        let comp = complement_digits(&num.frac_digits);
        let whole = Dec128 { negative: true, int_digits: inc, frac_digits: Vec::new() };
        let rem = Dec128 { negative: false, int_digits: zero_int, frac_digits: comp };
        proof {
            let f = num.frac_len();
            let p = pow(10, f);
            vstd::arithmetic::power::lemma_pow0(10);
            assert(whole.scaled_abs() == num.int_val() + 1);
            assert(rem.frac_val() == p - num.frac_val());
            assert(-((num.int_val() * p + num.frac_val()) as int) == -((num.int_val() + 1)
                as int) * p + (p - num.frac_val())) by (nonlinear_arith);
        }
        (whole, rem)
    }
}

/// Helper: the truncated integer part is zero while the whole value is an
/// integer, which makes the floor exactly zero and never negative.
fn frac_zero_is_zero_int(num: &Dec128, frac_zero: bool) -> (r: bool)
    requires
        num.wf(),
        frac_zero <==> num.frac_val() == 0,
    ensures
        r <==> (frac_zero && num.int_val() == 0),
{
    frac_zero && digits_all_zero(&num.int_digits)
}

/// The least integer at or above the value, plus the nonpositive
/// remainder `v - ceil(v)`, held as a negative fraction.
pub fn ceil_d128(num: &Dec128) -> (r: (Dec128, Dec128))
    requires
        num.wf(),
    ensures
        r.0.wf(),
        r.1.wf(),
        r.0.frac_len() == 0,
        r.1.int_val() == 0,
        r.1.frac_len() == num.frac_len(),
        r.1.negative ==> r.1.frac_val() > 0,
        num.signed_scaled() == r.0.signed_scaled() * pow(10, num.frac_len()) - r.1.frac_val(),
    {
    let frac_zero = digits_all_zero(&num.frac_digits);
    let mut zero_int: Vec<u8> = Vec::new();
    zero_int.push(0u8);
    proof {
        assert(zero_int@ =~= seq![0u8]);
        assert(digits_val(zero_int@, 10) == digits_val(zero_int@.drop_last(), 10) * 10 + 0);
        vstd::arithmetic::power::lemma_pow_positive(10, num.frac_len());
        vstd::arithmetic::power::lemma_pow0(10);
    }
    if frac_zero {
        let whole = Dec128 {
            negative: num.negative,
            int_digits: copy_digits(&num.int_digits),
            frac_digits: Vec::new(),
        };
        let rem = Dec128 {
            negative: false,
            int_digits: zero_int,
            frac_digits: copy_digits(&num.frac_digits),
        };
        proof {
            let p = pow(10, num.frac_len());
            let a = num.int_val() as int;
            assert(whole.scaled_abs() == num.int_val());
            assert((-a) * p == -(a * p)) by (nonlinear_arith);
        }
        (whole, rem)
    } else if num.negative {
        // Ceiling of a negative non-integer truncates toward zero; the
        // remainder is the fraction itself, carried negatively.
        let int_zero = digits_all_zero(&num.int_digits);
        let whole = Dec128 {
            negative: !int_zero,
            int_digits: copy_digits(&num.int_digits),
            frac_digits: Vec::new(),
        };
        let rem = Dec128 {
            negative: true,
            int_digits: zero_int,
            frac_digits: copy_digits(&num.frac_digits),
        };
        proof {
            let p = pow(10, num.frac_len());
            assert(-((num.int_val() * p + num.frac_val()) as int) == -(num.int_val() as int) * p
                - num.frac_val()) by (nonlinear_arith);
        }
        (whole, rem)
    } else {
        // A positive non-integer rounds up; the remainder complements the
        // fraction.
        proof {
            lemma_digits_val_bound(num.frac_digits@, 10);
        }
        let inc = increment_digits(&num.int_digits);
        let comp = complement_digits(&num.frac_digits);
        let whole = Dec128 { negative: false, int_digits: inc, frac_digits: Vec::new() };
        let rem = Dec128 { negative: true, int_digits: zero_int, frac_digits: comp };
        proof {
            let p = pow(10, num.frac_len());
            assert(rem.frac_val() == p - num.frac_val());
            assert((num.int_val() * p + num.frac_val()) as int == ((num.int_val() + 1) as int) * p
                - (p - num.frac_val())) by (nonlinear_arith);
        }
        (whole, rem)
    }
}

/// The floor's integer-part string, sign included.
pub fn floor_d128_to_string(num: &Dec128) -> (r: String)
    requires
        num.wf(),
    ensures
        exists|w: Dec128|
            {
                &&& w.wf()
                &&& w.frac_len() == 0
                &&& w.signed_scaled() * pow(10, num.frac_len()) <= num.signed_scaled()
                    < (w.signed_scaled() + 1) * pow(10, num.frac_len())
                &&& r@ == (if w.negative {
                    seq!['-']
                } else {
                    Seq::<char>::empty()
                }) + digit_chars(w.int_digits@)
            },
{
    let (whole, rem) = floor_d128(num);
    proof {
        let p = pow(10, num.frac_len());
        vstd::arithmetic::power::lemma_pow_positive(10, num.frac_len());
        lemma_digits_val_bound(rem.frac_digits@, 10);
        assert((whole.signed_scaled() + 1) * p == whole.signed_scaled() * p + p)
            by (nonlinear_arith);
    }
    first_d128_part(&whole)
}

/// The ceiling's integer-part string, sign included.
pub fn ceil_d128_to_string(num: &Dec128) -> (r: String)
    requires
        num.wf(),
    ensures
        exists|w: Dec128|
            {
                &&& w.wf()
                &&& w.frac_len() == 0
                &&& (w.signed_scaled() - 1) * pow(10, num.frac_len()) < num.signed_scaled()
                    <= w.signed_scaled() * pow(10, num.frac_len())
                &&& r@ == (if w.negative {
                    seq!['-']
                } else {
                    Seq::<char>::empty()
                }) + digit_chars(w.int_digits@)
            },
{
    let (whole, rem) = ceil_d128(num);
    proof {
        let p = pow(10, num.frac_len());
        vstd::arithmetic::power::lemma_pow_positive(10, num.frac_len());
        lemma_digits_val_bound(rem.frac_digits@, 10);
        assert((whole.signed_scaled() - 1) * p == whole.signed_scaled() * p - p)
            by (nonlinear_arith);
    }
    first_d128_part(&whole)
}

/// The truncation of the value as an `i128`, or zero when it does not fit
/// the 128-bit signed range.
pub fn d128_to_i128(num: &Dec128) -> (r: i128)
    requires
        num.wf(),
    ensures
        r as int == if i128::MIN <= trunc_val(*num) <= i128::MAX {
            trunc_val(*num)
        } else {
            0
        },
{
    let m = match digits_to_u128_checked(&num.int_digits) {
        Some(m) => m,
        None => {
            proof {
                assert(num.int_val() > u128::MAX);
            }
            return 0;
        },
    };
    if num.negative {
        if m <= 170141183460469231731687303715884105728u128 {
            if m == 170141183460469231731687303715884105728u128 {
                i128::MIN
            } else {
                -(m as i128)
            }
        } else {
            0
        }
    } else {
        if m <= 170141183460469231731687303715884105727u128 {
            m as i128
        } else {
            0
        }
    }
}

/// The truncation of the value as a `u32`: zero for negative values and
/// for magnitudes beyond the 32-bit range, as the narrowing conversion
/// degrades rather than fails.
pub fn d128_to_u32(num: &Dec128) -> (r: u32)
    requires
        num.wf(),
    ensures
        r as int == if !num.negative && num.int_val() <= u32::MAX {
            num.int_val() as int
        } else {
            0
        },
{
    if num.negative {
        return 0;
    }
    match digits_to_u128_checked(&num.int_digits) {
        Some(m) => {
            if m <= 0xffff_ffffu128 {
                m as u32
            } else {
                0
            }
        },
        None => {
            proof {
                assert(num.int_val() > u128::MAX);
            }
            0
        },
    }
}

/// Builds the decimal value of a signed 128-bit integer.
pub fn i128_to_d128(num: i128) -> (r: Dec128)
    ensures
        r.wf(),
        r.frac_len() == 0,
        r.signed_scaled() == num as int,
        r.negative == (num < 0),
{
    let m: u128 = if num >= 0 {
        num as u128
    } else if num == i128::MIN {
        170141183460469231731687303715884105728u128
    } else {
        (-num) as u128
    };
    let digits = u128_to_digits(m);
    proof {
        crate::digits::lemma_nat_digits_ok(m as nat, 10);
        if m > 0 {
            assert(canon_digits(m as nat, 10) == crate::digits::nat_digits(m as nat, 10));
        } else {
            assert(digits_val(seq![0u8], 10) == digits_val(seq![0u8].drop_last(), 10) * 10 + 0);
        }
        vstd::arithmetic::power::lemma_pow0(10);
    }
    Dec128 { negative: num < 0, int_digits: digits, frac_digits: Vec::new() }
}

/// Builds the decimal value of a signed 32-bit integer.
pub fn i32_to_d128(num: i32) -> (r: Dec128)
    ensures
        r.wf(),
        r.frac_len() == 0,
        r.signed_scaled() == num as int,
        r.negative == (num < 0),
{
    i128_to_d128(num as i128)
}

/// The truncation of the value as an arbitrary-precision integer.
pub fn d128_to_big_int(num: &Dec128) -> (r: num::bigint::BigInt)
    requires
        num.wf(),
    ensures
        crate::bignum::big_value(&r) == trunc_val(*num),
{
    crate::bignum::big_from_radix(num.negative, &num.int_digits, 10)
}

/// The decimal value of an arbitrary-precision integer.
pub fn big_int_to_d128(num: &num::bigint::BigInt) -> (r: Dec128)
    ensures
        r.wf(),
        r.frac_len() == 0,
        r.signed_scaled() == crate::bignum::big_value(num),
        r.negative == (crate::bignum::big_value(num) < 0),
{
    let negative = crate::bignum::big_is_negative(num);
    let digits = crate::bignum::big_to_radix_digits(num, 10);
    proof {
        let a = crate::fractions::abs_int(crate::bignum::big_value(num)) as nat;
        crate::digits::lemma_nat_digits_ok(a, 10);
        if a == 0 {
            assert(digits_val(seq![0u8], 10) == digits_val(seq![0u8].drop_last(), 10) * 10 + 0);
        }
        vstd::arithmetic::power::lemma_pow0(10);
    }
    Dec128 { negative, int_digits: digits, frac_digits: Vec::new() }
}

/// A fractional digit vector adjusted to exactly `scale` positions.
fn scale_digits(frac: &Vec<u8>, scale: u32) -> (r: Vec<u8>)
    ensures
        r@ == frac_at_scale(frac@, scale as nat),
        r@.len() == scale,
{
    let mut out: Vec<u8> = Vec::new();
    let scale_us = scale as usize;
    if scale_us <= frac.len() {
        let mut i: usize = 0;
        while i < scale_us
            invariant
                i <= scale_us <= frac@.len(),
                out@ =~= frac@.subrange(0, i as int),
            decreases scale_us - i,
        {
            out.push(frac[i]);
            proof {
                assert(out@ =~= frac@.subrange(0, i + 1));
            }
            i = i + 1;
        }
    } else {
        let mut i: usize = 0;
        while i < frac.len()
            invariant
                i <= frac@.len(),
                out@ =~= frac@.subrange(0, i as int),
            decreases frac@.len() - i,
        {
            out.push(frac[i]);
            proof {
                assert(out@ =~= frac@.subrange(0, i + 1));
            }
            i = i + 1;
        }
        proof {
            assert(out@ =~= frac@);
        }
        let ghost base = out@;
        let flen = frac.len();
        let mut k: usize = flen;
        while k < scale_us
            invariant
                flen == frac@.len() <= k <= scale_us,
                out@ =~= base + zero_digits((k - flen) as nat),
                base == frac@,
            decreases scale_us - k,
        {
            out.push(0u8);
            proof {
                assert(out@ =~= base + zero_digits((k + 1 - flen) as nat));
            }
            k = k + 1;
        }
    }
    proof {
        assert(frac@.subrange(0, frac@.len() as int) =~= frac@);
    }
    out
}

/// The fractional remainder scaled to an integer of exactly `scale`
/// decimal digits, ready to be reassembled as the digits after the point.
pub fn d128_to_big_number(num: &Dec128, scale: u32) -> (r: num::bigint::BigInt)
    requires
        num.wf(),
    ensures
        crate::bignum::big_value(&r) == digits_val(
            frac_at_scale(num.frac_digits@, scale as nat),
            10,
        ),
{
    let adjusted = scale_digits(&num.frac_digits, scale);
    proof {
        assert(digits_ok(adjusted@, 10)) by {
            assert(forall|i: int|
                0 <= i < adjusted@.len() ==> (#[trigger] adjusted@[i]) == frac_at_scale(
                    num.frac_digits@,
                    scale as nat,
                )[i]);
        }
    }
    crate::bignum::big_from_radix(false, &adjusted, 10)
}

/// Count of significant digits in the fractional remainder; an all-zero
/// remainder counts as a single digit.
pub open spec fn sig_frac_digits(v: Dec128) -> nat {
    if v.frac_val() == 0 {
        1
    } else {
        (v.frac_len() - lead_zeros(v.frac_digits@)) as nat
    }
}

/// Largest fractional scale the display template retains, a defensive cap
/// below the full precision budget.
pub const SCALE_CAP: u32 = 32;

/// The retained fractional scale: the precision budget minus the integer
/// digit count plus the remainder's significant digits, clamped to the cap.
pub open spec fn scale_of(v: Dec128) -> nat {
    let refscale = crate::digits::PRECISION - v.int_digits@.len() + sig_frac_digits(v);
    if refscale < 0 {
        0
    } else if refscale > SCALE_CAP {
        SCALE_CAP as nat
    } else {
        refscale as nat
    }
}

/// A fractional digit sequence adjusted to exactly `scale` positions:
/// truncated beyond the scale, zero-padded below it.
pub open spec fn frac_at_scale(s: Seq<u8>, scale: nat) -> Seq<u8> {
    if scale <= s.len() {
        s.subrange(0, scale as int)
    } else {
        s + zero_digits((scale - s.len()) as nat)
    }
}

/// The fractional digits adjusted to the value's derived scale.
pub open spec fn decimals_of(v: Dec128) -> Seq<u8> {
    frac_at_scale(v.frac_digits@, scale_of(v))
}

/// The absolute integer part saturated to zero when it leaves the 128-bit
/// signed range.
pub open spec fn sat_int(v: Dec128) -> int {
    if v.int_val() <= i128::MAX {
        v.int_val() as int
    } else {
        0
    }
}

/// The fixed-width base-10 display view of a decimal value: sign, saturated
/// absolute integer part, fractional digits at the derived scale.
pub struct NumberTemplate {
    pub is_negative: bool,
    pub integer: i128,
    pub decimals: Vec<u8>,
    pub scale: u32,
}

/// The rendered decimal string of a display template: sign, integer
/// digits, and the fractional digits with trailing zeros trimmed.
pub open spec fn template_string(t: NumberTemplate) -> Seq<char>
    recommends
        t.integer >= 0,
{
    (if t.is_negative {
        seq!['-']
    } else {
        Seq::<char>::empty()
    }) + digit_chars(canon_digits(t.integer as nat, 10)) + (if trim_zeros(t.decimals@).len()
        > 0 {
        seq!['.'] + digit_chars(trim_zeros(t.decimals@))
    } else {
        Seq::<char>::empty()
    })
}

impl NumberTemplate {
    pub open spec fn wf(self) -> bool {
        &&& self.integer >= 0
        &&& digits_ok(self.decimals@, 10)
        &&& self.decimals@.len() == self.scale
        &&& self.scale <= 32
    }

    /// Derives the display template of a decimal value.
    pub fn new(num: &Dec128) -> (r: Self)
        requires
            num.wf(),
        ensures
            r.wf(),
            r.is_negative == num.negative,
            r.integer == sat_int(*num),
            r.scale == scale_of(*num),
            r.decimals@ == decimals_of(*num),
    {
        let integer: i128 = match digits_to_u128_checked(&num.int_digits) {
            Some(m) => {
                if m <= 170141183460469231731687303715884105727u128 {
                    m as i128
                } else {
                    0
                }
            },
            None => 0,
        };
        let flen = num.frac_digits.len();
        let mut lz: usize = 0;
        while lz < flen && num.frac_digits[lz] == 0
            invariant
                lz <= flen == num.frac_digits@.len(),
                forall|i: int| 0 <= i < lz as int ==> num.frac_digits@[i] == 0,
            decreases flen - lz,
        {
            lz = lz + 1;
        }
        proof {
            lemma_lead_zeros_at(num.frac_digits@, lz as int);
        }
        let frac_zero = digits_all_zero(&num.frac_digits);
        proof {
            if frac_zero {
                crate::dec128::lemma_digits_val_zero(num.frac_digits@);
            } else {
                crate::dec128::lemma_digits_val_zero(num.frac_digits@);
            }
        }
        let fd: usize = if frac_zero {
            1
        } else {
            flen - lz
        };
        let refscale: i128 = (crate::digits::PRECISION as i128) - (num.int_digits.len()
            as i128) + (fd as i128);
        let scale: u32 = if refscale < 0 {
            0
        } else if refscale > (SCALE_CAP as i128) {
            SCALE_CAP
        } else {
            refscale as u32
        };
        let mut decimals: Vec<u8> = Vec::new();
        let scale_us = scale as usize;
        if scale_us <= flen {
            let mut i: usize = 0;
            while i < scale_us
                invariant
                    i <= scale_us <= num.frac_digits@.len(),
                    decimals@ =~= num.frac_digits@.subrange(0, i as int),
                decreases scale_us - i,
            {
                decimals.push(num.frac_digits[i]);
                proof {
                    assert(decimals@ =~= num.frac_digits@.subrange(0, i + 1));
                }
                i = i + 1;
            }
        } else {
            let mut i: usize = 0;
            while i < flen
                invariant
                    i <= flen == num.frac_digits@.len(),
                    decimals@ =~= num.frac_digits@.subrange(0, i as int),
                decreases flen - i,
            {
                decimals.push(num.frac_digits[i]);
                proof {
                    assert(decimals@ =~= num.frac_digits@.subrange(0, i + 1));
                }
                i = i + 1;
            }
            proof {
                assert(decimals@ =~= num.frac_digits@);
            }
            let ghost base = decimals@;
            let mut k: usize = flen;
            while k < scale_us
                invariant
                    flen <= k <= scale_us,
                    decimals@ =~= base + zero_digits((k - flen) as nat),
                decreases scale_us - k,
            {
                decimals.push(0u8);
                proof {
                    assert(decimals@ =~= base + zero_digits((k + 1 - flen) as nat));
                }
                k = k + 1;
            }
        }
        proof {
            assert(num.frac_digits@.subrange(0, num.frac_digits@.len() as int)
                =~= num.frac_digits@);
        }
        NumberTemplate { is_negative: num.negative, integer, decimals, scale }
    }

    /// Renders the template: sign, integer part, and the retained
    /// fractional digits with trailing zeros trimmed; an all-zero fraction
    /// drops the point entirely.
    pub fn to_string(&self) -> (r: String)
        requires
            self.wf(),
        ensures
            r@ == template_string(*self),
    {
        let mut out = String::new();
        if self.is_negative {
            out.push('-');
        }
        crate::digits::push_u128(&mut out, self.integer as u128);
        let trimmed = trim_trailing_zeros(&self.decimals);
        proof {
            crate::digits::lemma_trim_zeros_prefix(self.decimals@);
            assert(digits_ok(trimmed@, 36)) by {
                assert(forall|i: int|
                    0 <= i < trimmed@.len() ==> (#[trigger] trimmed@[i]) == self.decimals@[i]);
            }
        }
        if trimmed.len() > 0 {
            out.push('.');
            push_digits(&mut out, &trimmed);
        }
        proof {
            assert(out@ =~= template_string(*self));
        }
        out
    }
}

/// Reassembling the parts of the decomposition: the sign, the integer
/// digits, and a point before any nonempty fractional digits reproduce the
/// value's canonical decimal string exactly.
pub proof fn lemma_decompose_round_trip(
    v: Dec128,
    is_neg: bool,
    int_part: Seq<char>,
    frac_part: Seq<char>,
)
    requires
        v.wf(),
        is_neg == v.negative,
        int_part == digit_chars(v.int_digits@),
        frac_part == digit_chars(v.frac_digits@),
    ensures
        (if is_neg {
            seq!['-']
        } else {
            Seq::<char>::empty()
        }) + int_part + (if frac_part.len() > 0 {
            seq!['.'] + frac_part
        } else {
            Seq::<char>::empty()
        }) == v.dec_string(),
{
}

/// Floor correctness: the floor is at most the value, the value is below
/// the floor plus one, and the remainder lies in `[0, 1)` of a unit.
pub proof fn lemma_floor_bounds(v: Dec128, w: Dec128, rem: Dec128)
    requires
        v.wf(),
        w.wf(),
        rem.wf(),
        w.frac_len() == 0,
        !rem.negative,
        rem.int_val() == 0,
        rem.frac_len() == v.frac_len(),
        v.signed_scaled() == w.signed_scaled() * pow(10, v.frac_len()) + rem.frac_val(),
    ensures
        w.signed_scaled() * pow(10, v.frac_len()) <= v.signed_scaled(),
        v.signed_scaled() < (w.signed_scaled() + 1) * pow(10, v.frac_len()),
        0 <= rem.frac_val() < pow(10, v.frac_len()),
{
    let p = pow(10, v.frac_len());
    vstd::arithmetic::power::lemma_pow_positive(10, v.frac_len());
    lemma_digits_val_bound(rem.frac_digits@, 10);
    assert((w.signed_scaled() + 1) * p == w.signed_scaled() * p + p) by (nonlinear_arith);
}

/// Ceiling correctness: the value is at most the ceiling, the ceiling
/// minus one is below the value, and the remainder's magnitude lies in
/// `[0, 1)` of a unit.
pub proof fn lemma_ceil_bounds(v: Dec128, w: Dec128, rem: Dec128)
    requires
        v.wf(),
        w.wf(),
        rem.wf(),
        w.frac_len() == 0,
        rem.int_val() == 0,
        rem.frac_len() == v.frac_len(),
        v.signed_scaled() == w.signed_scaled() * pow(10, v.frac_len()) - rem.frac_val(),
    ensures
        v.signed_scaled() <= w.signed_scaled() * pow(10, v.frac_len()),
        (w.signed_scaled() - 1) * pow(10, v.frac_len()) < v.signed_scaled(),
        0 <= rem.frac_val() < pow(10, v.frac_len()),
{
    let p = pow(10, v.frac_len());
    vstd::arithmetic::power::lemma_pow_positive(10, v.frac_len());
    lemma_digits_val_bound(rem.frac_digits@, 10);
    assert((w.signed_scaled() - 1) * p == w.signed_scaled() * p - p) by (nonlinear_arith);
}

} // verus!
