//! The fraction approximator: a deterministic first-fit search for a small
//! denominator approximating the fractional part of a decimal value, with
//! exact rational reduction.
use vstd::prelude::*;
use vstd::arithmetic::power::pow;
use vstd::arithmetic::div_mod::lemma_fundamental_div_mod;
use vstd::arithmetic::div_mod::lemma_fundamental_div_mod_converse;
use vstd::arithmetic::div_mod::lemma_mod_division_less_than_divisor;
use vstd::arithmetic::mul::lemma_mul_inequality;
use crate::dec128::Dec128;
use crate::digits::digits_to_u128;
use crate::digits::lemma_digits_val_bound;
use crate::digits::lemma_pow10_38;
use crate::digits::pow10_u128;

verus! {

/// Euclid's greatest common divisor.
pub open spec fn gcd_nat(a: nat, b: nat) -> nat
    decreases b,
    via gcd_nat_decreases
{
    if b == 0 {
        a
    } else {
        gcd_nat(b, a % b)
    }
}

#[via_fn]
proof fn gcd_nat_decreases(a: nat, b: nat) {
    if b != 0 {
        lemma_mod_division_less_than_divisor(a as int, b as int);
    }
}

/// `c` divides `x` exactly.
pub open spec fn divides(c: int, x: int) -> bool {
    exists|k: int| x == #[trigger] (c * k)
}

/// The gcd divides both arguments and is positive when either is.
pub proof fn lemma_gcd_divides(a: nat, b: nat)
    ensures
        divides(gcd_nat(a, b) as int, a as int),
        divides(gcd_nat(a, b) as int, b as int),
        a > 0 || b > 0 ==> gcd_nat(a, b) > 0,
    decreases b,
{
    let g = gcd_nat(a, b) as int;
    if b == 0 {
        assert(a as int == g * 1) by (nonlinear_arith)
            requires
                g == a as int,
        ;
        assert(b as int == g * 0) by (nonlinear_arith)
            requires
                b == 0nat,
        ;
    } else {
        lemma_mod_division_less_than_divisor(a as int, b as int);
        lemma_gcd_divides(b, a % b);
        let k1 = choose|k: int| b as int == #[trigger] (g * k);
        let k2 = choose|k: int| (a % b) as int == #[trigger] (g * k);
        lemma_fundamental_div_mod(a as int, b as int);
        let q = a as int / b as int;
        assert(a as int == g * (q * k1 + k2)) by (nonlinear_arith)
            requires
                a as int == (b as int) * q + ((a % b) as int),
                b as int == g * k1,
                (a % b) as int == g * k2,
        ;
        assert(divides(g, a as int));
    }
}

/// Any common divisor of `a` and `b` divides their gcd.
pub proof fn lemma_common_divides_gcd(a: nat, b: nat, c: int)
    requires
        divides(c, a as int),
        divides(c, b as int),
    ensures
        divides(c, gcd_nat(a, b) as int),
    decreases b,
{
    if b == 0 {
    } else {
        let k1 = choose|k: int| a as int == #[trigger] (c * k);
        let k2 = choose|k: int| b as int == #[trigger] (c * k);
        lemma_fundamental_div_mod(a as int, b as int);
        let q = a as int / b as int;
        assert((a % b) as int == c * (k1 - q * k2)) by (nonlinear_arith)
            requires
                a as int == (b as int) * q + ((a % b) as int),
                a as int == c * k1,
                b as int == c * k2,
        ;
        assert(divides(c, (a % b) as int));
        lemma_common_divides_gcd(b, a % b, c);
    }
}

/// An exact divisor of a positive number is recovered by division.
pub proof fn lemma_divides_div(c: int, x: int)
    requires
        c >= 1,
        x >= 0,
        divides(c, x),
    ensures
        x == (x / c) * c,
        x % c == 0,
        x / c >= 0,
{
    let k = choose|k: int| x == #[trigger] (c * k);
    assert(k >= 0) by (nonlinear_arith)
        requires x == c * k, c >= 1, x >= 0;
    assert(c * k == k * c) by (nonlinear_arith);
    lemma_fundamental_div_mod_converse(x, c, k, 0);
}

/// After dividing both parts by their gcd, no common factor remains.
pub proof fn lemma_coprime_after_div(m: nat, d: nat)
    requires
        d >= 1,
    ensures
        gcd_nat(m, d) >= 1,
        gcd_nat((m / gcd_nat(m, d)) as nat, (d / gcd_nat(m, d)) as nat) == 1,
    decreases 0nat,
{
    let g = gcd_nat(m, d) as int;
    lemma_gcd_divides(m, d);
    lemma_divides_div(g, m as int);
    lemma_divides_div(g, d as int);
    let m2 = (m / gcd_nat(m, d)) as nat;
    let d2 = (d / gcd_nat(m, d)) as nat;
    assert(d2 >= 1) by (nonlinear_arith)
        requires d as int == d2 * g, d >= 1, g >= 1, d2 >= 0;
    let g2 = gcd_nat(m2, d2) as int;
    lemma_gcd_divides(m2, d2);
    assert(g2 >= 1);
    let j1 = choose|k: int| m2 as int == #[trigger] (g2 * k);
    let j2 = choose|k: int| d2 as int == #[trigger] (g2 * k);
    assert(m as int == (g * g2) * j1) by (nonlinear_arith)
        requires m as int == m2 * g, m2 as int == g2 * j1;
    assert(d as int == (g * g2) * j2) by (nonlinear_arith)
        requires d as int == d2 * g, d2 as int == g2 * j2;
    assert(divides(g * g2, m as int));
    assert(divides(g * g2, d as int));
    lemma_common_divides_gcd(m, d, g * g2);
    let k3 = choose|k: int| g == #[trigger] ((g * g2) * k);
    assert(g2 == 1) by (nonlinear_arith)
        requires g == (g * g2) * k3, g >= 1, g2 >= 1;
}

/// Euclid's algorithm on 128-bit integers.
pub fn gcd_u128(a: u128, b: u128) -> (r: u128)
    ensures
        r == gcd_nat(a as nat, b as nat),
    decreases b,
{
    let mut x = a;
    let mut y = b;
    while y != 0
        invariant
            gcd_nat(x as nat, y as nat) == gcd_nat(a as nat, b as nat),
        decreases y,
    {
        let t = x % y;
        x = y;
        y = t;
    }
    x
}

/// A rational approximation of a decimal value: a truncated absolute
/// integer part and a reduced fraction for the remainder.
pub struct RationalNumber128 {
    pub integer: i128,
    pub numer: i128,
    pub denom: i32,
}

/// The magnitude of a signed value, as a spec integer.
pub open spec fn abs_int(x: int) -> int {
    if x >= 0 {
        x
    } else {
        -x
    }
}

impl RationalNumber128 {
    /// Reduces `numer / denom` to lowest terms, keeping the numerator's
    /// sign, and stores it beside the integer part.
    pub fn new(integer: i128, numer: i128, denom: i32) -> (r: Self)
        requires
            denom >= 1,
            numer > i128::MIN,
        ensures
            r.integer == integer,
            r.denom >= 1,
            ({
                let g = gcd_nat(abs_int(numer as int) as nat, denom as nat) as int;
                &&& g >= 1
                &&& r.numer == if numer >= 0 {
                    abs_int(numer as int) / g
                } else {
                    -(abs_int(numer as int) / g)
                }
                &&& r.denom == denom as int / g
                &&& gcd_nat(abs_int(r.numer as int) as nat, r.denom as nat) == 1
            }),
    {
        let m: u128 = if numer >= 0 {
            numer as u128
        } else {
            (-numer) as u128
        };
        let g = gcd_u128(m, denom as u128);
        proof {
            lemma_coprime_after_div(m as nat, denom as nat);
            lemma_gcd_divides(m as nat, denom as nat);
            lemma_divides_div(g as int, m as int);
            lemma_divides_div(g as int, denom as int);
            assert(denom as int / g as int >= 1) by (nonlinear_arith)
                requires
                    denom as int == (denom as int / g as int) * g as int,
                    denom >= 1,
                    g >= 1,
                    denom as int / g as int >= 0,
            ;
            assert(m as int / g as int <= m as int) by (nonlinear_arith)
                requires
                    m as int == (m as int / g as int) * g as int,
                    g >= 1,
                    m as int / g as int >= 0,
            ;
        }
        let rm = m / g;
        let rd = (denom as u128) / g;
        let rnum: i128 = if numer >= 0 {
            rm as i128
        } else {
            -(rm as i128)
        };
        RationalNumber128 { integer, numer: rnum, denom: rd as i32 }
    }
}

/// Whether denominator `i` approximates the remainder within the
/// tolerance: `(F*i) mod p10`, the scaled distance to the nearest
/// integer multiple, is within `p10 / (prec+1)` of zero or of `p10`.
pub open spec fn accept(fv: nat, p10: nat, prec: int, i: nat) -> bool {
    let d = (fv * i) % p10;
    d * (prec + 1) <= p10 || (p10 - d) * (prec + 1) <= p10
}

/// The smallest accepted denominator in `[from, prec]`, or `0` if none.
pub open spec fn first_accept(fv: nat, p10: nat, prec: int, from: int) -> int
    decreases prec - from + 1,
{
    if from > prec || from < 1 {
        0
    } else if accept(fv, p10, prec, from as nat) {
        from
    } else {
        first_accept(fv, p10, prec, from + 1)
    }
}

/// The first-fit search is sound and minimal: a nonzero result is the
/// least accepted denominator, and a zero result means none is accepted.
pub proof fn lemma_first_accept(fv: nat, p10: nat, prec: int, from: int)
    requires
        1 <= from,
    ensures
        ({
            let i0 = first_accept(fv, p10, prec, from);
            &&& (i0 == 0 ==> forall|j: int|
                from <= j <= prec ==> !accept(fv, p10, prec, #[trigger] (j as nat)))
            &&& (i0 != 0 ==> from <= i0 <= prec && accept(fv, p10, prec, i0 as nat) && forall|
                j: int,
            | from <= j < i0 ==> !accept(fv, p10, prec, #[trigger] (j as nat)))
        }),
    decreases prec - from + 1,
{
    if from > prec {
    } else if accept(fv, p10, prec, from as nat) {
    } else {
        lemma_first_accept(fv, p10, prec, from + 1);
    }
}

/// Comparing against a floor quotient decides the product inequality.
proof fn lemma_mul_le_div(a: int, m: int, t: int)
    requires
        m >= 1,
        a >= 0,
        t >= 0,
    ensures
        a * m <= t <==> a <= t / m,
{
    if a * m <= t {
        vstd::arithmetic::div_mod::lemma_div_is_ordered(a * m, t, m);
        vstd::arithmetic::div_mod::lemma_div_by_multiple(a, m);
    }
    if a <= t / m {
        lemma_fundamental_div_mod(t, m);
        vstd::arithmetic::div_mod::lemma_mod_bound(t, m);
        lemma_mul_inequality(a, t / m, m);
    }
}

/// Tests one candidate denominator: given the scaled distance `diff` of
/// `remainder * i` from the integer below it, accepts when the distance
/// to the nearest integer is within the tolerance quotient, returning the
/// candidate and its scaled error.
pub fn is_divisable(diff: u128, p10: u128, i: i32, tol: u128) -> (r: Option<(i32, u128)>)
    requires
        diff < p10,
    ensures
        r == if diff <= tol {
            Some((i, diff))
        } else if p10 - diff <= tol {
            Some((i, (p10 - diff) as u128))
        } else {
            None::<(i32, u128)>
        },
{
    if diff <= tol {
        Some((i, diff))
    } else if p10 - diff <= tol {
        Some((i, p10 - diff))
    } else {
        None
    }
}

/// What the first-fit approximation returns: the saturated truncated
/// integer part, and, for the least accepted denominator `i0` (none
/// meaning no fraction), the remainder rounded at `i0` and reduced to
/// lowest terms, the numerator carrying the value's sign.
pub open spec fn fraction_post(num: Dec128, precision: i32, r: RationalNumber128) -> bool {
    let p10 = pow(10, num.frac_len()) as nat;
    let i0 = first_accept(num.frac_val(), p10, precision as int, 1);
    &&& r.integer as int == crate::conversions::sat_int(num)
    &&& r.denom >= 1
    &&& (i0 == 0 ==> r.numer == 0 && r.denom == 1)
    &&& (i0 != 0 ==> ({
        let q = (num.frac_val() * i0 as nat) / p10;
        let d = (num.frac_val() * i0 as nat) % p10;
        let rnd = q + if 2 * d >= p10 {
            1int
        } else {
            0int
        };
        let g = gcd_nat(rnd as nat, i0 as nat) as int;
        &&& r.numer == if num.negative {
            -(rnd / g)
        } else {
            rnd / g
        }
        &&& r.denom == i0 / g
    }))
}

/// Approximates the fractional part of `num` as a reduced fraction with
/// denominator at most `precision`, searching denominators first-fit from
/// one upward; the integer part is the truncated magnitude, saturating to
/// zero outside the 128-bit range.
#[verifier::rlimit(50)]
pub fn float_to_fraction(num: &Dec128, precision: i32) -> (r: RationalNumber128)
    requires
        num.wf(),
        precision < i32::MAX,
    ensures
        fraction_post(*num, precision, r),
{
    let integer: i128 = match crate::digits::digits_to_u128_checked(&num.int_digits) {
        Some(m) => {
            if m <= 170141183460469231731687303715884105727u128 {
                m as i128
            } else {
                0
            }
        },
        None => 0,
    };
    let flen = num.frac_digits.len() as u32;
    let p10 = pow10_u128(flen);
    let fv = digits_to_u128(&num.frac_digits);
    proof {
        lemma_digits_val_bound(num.frac_digits@, 10);
        lemma_pow10_38();
        vstd::arithmetic::power::lemma_pow_increases(10, num.frac_len(), 38);
    }
    let ghost fvn = num.frac_val();
    let ghost p10n = pow(10, num.frac_len()) as nat;
    let ghost prec = precision as int;
    if precision < 1 {
        proof {
            assert(first_accept(fvn, p10n, prec, 1) == 0);
        }
        return RationalNumber128 { integer, numer: 0, denom: 1 };
    }
    let tol = p10 / ((precision as u128) + 1);
    let mut acc: u128 = 0;
    let mut q: u128 = 0;
    let mut i: i32 = 0;
    let mut found = false;
    let mut denom: i32 = 1;
    let mut rnd: u128 = 0;
    proof {
        vstd::arithmetic::power::lemma_pow_positive(10, num.frac_len());
        assert(fvn * (0 as nat) == 0) by (nonlinear_arith);
        vstd::arithmetic::div_mod::lemma_small_mod(0, p10n);
        vstd::arithmetic::div_mod::lemma_basic_div(0, p10n as int);
    }
    while i < precision && !found
        invariant
            0 <= i <= precision < i32::MAX,
            precision >= 1,
            p10 == p10n,
            fv == fvn,
            fv < p10,
            p10 <= 100000000000000000000000000000000000000u128,
            prec == precision as int,
            tol as int == p10n as int / (precision as int + 1),
            acc == (fvn * i as nat) % p10n,
            q == (fvn * i as nat) / p10n,
            q <= i,
            found ==> first_accept(fvn, p10n, prec, 1) == i as int && i >= 1 && denom == i
                && rnd as int == ({
                let qq = (fvn * i as nat) / p10n;
                let dd = (fvn * i as nat) % p10n;
                qq + if 2 * dd >= p10n {
                    1int
                } else {
                    0int
                }
            }),
            !found ==> forall|j: int|
                1 <= j <= i as int ==> !accept(fvn, p10n, prec, #[trigger] (j as nat)),
        decreases precision - i, (if found { 0int } else { 1int }),
    {
        let ghost ii = i as int;
        proof {
            vstd::arithmetic::power::lemma_pow_positive(10, num.frac_len());
            assert(fvn * ((ii + 1) as nat) == fvn * (ii as nat) + fvn) by (nonlinear_arith)
                requires
                    ii >= 0,
            ;
            lemma_fundamental_div_mod((fvn * i as nat) as int, p10n as int);
        }
        let i1 = i + 1;
        // One more multiple of the remainder: reduce modulo one unit.
        let mut acc1 = acc + fv;
        let mut q1 = q;
        if acc1 >= p10 {
            acc1 = acc1 - p10;
            q1 = q1 + 1;
        }
        proof {
            assert((fvn * i1 as nat) as int == q1 * p10n + acc1) by (nonlinear_arith)
                requires
                    (fvn * i1 as nat) as int == (fvn * i as nat) + fvn,
                    (fvn * i as nat) as int == (p10n as int) * (q as int) + acc,
                    q1 as int == q + (if acc + fvn >= p10n {
                        1int
                    } else {
                        0int
                    }),
                    acc1 as int == acc + fvn - (if acc + fvn >= p10n {
                        p10n as int
                    } else {
                        0int
                    }),
            ;
            lemma_fundamental_div_mod_converse(
                (fvn * i1 as nat) as int,
                p10n as int,
                q1 as int,
                acc1 as int,
            );
            let x1 = fvn as int;
            let pp = p10n as int;
            lemma_mul_inequality(x1, pp - 1, i1 as int);
            lemma_mul_inequality(pp - 1, pp, i1 as int);
            assert((pp - 1) * (i1 as int) <= pp * (i1 as int));
            vstd::arithmetic::div_mod::lemma_div_is_ordered(
                (fvn * i1 as nat) as int,
                pp * (i1 as int),
                pp,
            );
            vstd::arithmetic::div_mod::lemma_div_multiples_vanish(i1 as int, pp);
            assert(x1 * (i1 as int) == (fvn * i1 as nat) as int) by (nonlinear_arith)
                requires
                    x1 == fvn as int,
                    i1 >= 0,
            ;
            assert(q1 <= i1);
        }
        acc = acc1;
        q = q1;
        i = i1;
        // The acceptance test against the tolerance quotient.
        let hit = is_divisable(acc, p10, i, tol);
        proof {
            lemma_mul_le_div(acc as int, precision as int + 1, p10n as int);
            lemma_mul_le_div(p10n as int - acc, precision as int + 1, p10n as int);
        }
        match hit {
            Some(_) => {
                proof {
                    assert(accept(fvn, p10n, prec, i as nat));
                    lemma_first_accept(fvn, p10n, prec, 1);
                    assert(first_accept(fvn, p10n, prec, 1) == i as int) by {
                        let i0 = first_accept(fvn, p10n, prec, 1);
                        if i0 == 0 {
                            assert(!accept(fvn, p10n, prec, (i as int) as nat));
                        } else if i0 < i as int {
                            assert(!accept(fvn, p10n, prec, (i0 as int) as nat));
                        } else if i0 > i as int {
                            assert(!accept(fvn, p10n, prec, (i as int) as nat));
                        }
                    }
                }
                found = true;
                denom = i;
                rnd = if 2 * acc >= p10 {
                    q + 1
                } else {
                    q
                };
            },
            None => {
                proof {
                    assert(!accept(fvn, p10n, prec, i as nat));
                    assert(forall|j: int|
                        1 <= j <= i as int ==> !accept(fvn, p10n, prec, #[trigger] (j as nat)));
                }
            },
        }
    }
    if !found {
        proof {
            lemma_first_accept(fvn, p10n, prec, 1);
            let i0 = first_accept(fvn, p10n, prec, 1);
            if i0 != 0 {
                assert(!accept(fvn, p10n, prec, (i0 as int) as nat));
            }
        }
        return RationalNumber128 { integer, numer: 0, denom: 1 };
    }
    // Round the scaled product to the nearest whole numerator and reduce.
    let signed: i128 = if num.negative {
        -(rnd as i128)
    } else {
        rnd as i128
    };
    proof {
        assert(rnd <= precision as u128 + 1);
    }
    let r = RationalNumber128::new(integer, signed, denom);
    r
}

/// The plain decimal rendering of a rational approximation: the integer
/// part if positive, then `numer/denom` if both are positive, joined by a
/// space; either piece may be absent.
pub open spec fn rational_string(r: RationalNumber128) -> Seq<char> {
    let ip = if r.integer > 0 {
        crate::digits::digit_chars(crate::digits::canon_digits(r.integer as nat, 10))
    } else {
        Seq::<char>::empty()
    };
    let fr = if r.numer > 0 && r.denom > 0 {
        crate::digits::digit_chars(crate::digits::canon_digits(r.numer as nat, 10)) + seq!['/']
            + crate::digits::digit_chars(crate::digits::canon_digits(r.denom as nat, 10))
    } else {
        Seq::<char>::empty()
    };
    ip + (if ip.len() > 0 && fr.len() > 0 {
        seq![' ']
    } else {
        Seq::<char>::empty()
    }) + fr
}

/// The same rendering with both pieces in the target base.
pub open spec fn rational_radix_string(r: RationalNumber128, radix: u8) -> Seq<char> {
    let ip = if r.integer > 0 {
        crate::radix::bigint_radix_string(r.integer as int, radix, false)
    } else {
        Seq::<char>::empty()
    };
    let fr = if r.numer > 0 && r.denom > 0 {
        crate::radix::bigint_radix_string(r.numer as int, radix, false) + seq!['/']
            + crate::radix::bigint_radix_string(r.denom as int, radix, false)
    } else {
        Seq::<char>::empty()
    };
    ip + (if ip.len() > 0 && fr.len() > 0 {
        seq![' ']
    } else {
        Seq::<char>::empty()
    }) + fr
}

impl RationalNumber128 {
    /// Renders the approximation in decimal.
    pub fn to_string(&self) -> (r: String)
        ensures
            r@ == rational_string(*self),
    {
        let mut out = String::new();
        if self.integer > 0 {
            crate::digits::push_u128(&mut out, self.integer as u128);
        }
        if self.numer > 0 && self.denom > 0 {
            if self.integer > 0 {
                out.push(' ');
            }
            crate::digits::push_u128(&mut out, self.numer as u128);
            out.push('/');
            crate::digits::push_u128(&mut out, self.denom as u128);
        }
        proof {
            assert(out@ =~= rational_string(*self));
        }
        out
    }

    /// Renders the approximation in the target base.
    pub fn to_string_radix(&self, radix: u8) -> (r: String)
        requires
            2 <= radix,
        ensures
            r@ == rational_radix_string(*self, radix),
    {
        let mut out = String::new();
        if self.integer > 0 {
            let ip = crate::radix::integer_to_radix_string(self.integer, radix, false);
            out.append(ip.as_str());
        }
        if self.numer > 0 && self.denom > 0 {
            if self.integer > 0 {
                out.push(' ');
            }
            let ns = crate::radix::integer_to_radix_string(self.numer, radix, false);
            out.append(ns.as_str());
            out.push('/');
            let ds = crate::radix::integer_to_radix_string(self.denom as i128, radix, false);
            out.append(ds.as_str());
        }
        proof {
            assert(out@ =~= rational_radix_string(*self, radix));
        }
        out
    }
}

/// Approximates and renders in one step: decimal output for base ten,
/// base-rendered output otherwise.
pub fn float_to_fraction_string(num: &Dec128, radix: u8, precision: i32) -> (r: String)
    requires
        num.wf(),
        2 <= radix,
        precision < i32::MAX,
    ensures
        exists|f: RationalNumber128|
            fraction_post(*num, precision, f) && r@ == if radix == 10 {
                rational_string(f)
            } else {
                rational_radix_string(f, radix)
            },
{
    let rn = float_to_fraction(num, precision);
    if radix == 10 {
        let out = rn.to_string();
        proof {
            assert(fraction_post(*num, precision, rn) && out@ == rational_string(rn));
        }
        out
    } else {
        let out = rn.to_string_radix(radix);
        proof {
            assert(fraction_post(*num, precision, rn) && out@ == rational_radix_string(
                rn,
                radix,
            ));
        }
        out
    }
}

/// A reduced fraction admits no common factor above one: any would divide
/// the greatest common divisor, which is one.
pub proof fn lemma_reduced_no_common_factor(m: nat, d: nat, c: int)
    requires
        gcd_nat(m, d) == 1,
        c > 1,
    ensures
        !(divides(c, m as int) && divides(c, d as int)),
{
    if divides(c, m as int) && divides(c, d as int) {
        lemma_common_divides_gcd(m, d, c);
        let k = choose|k: int| 1int == #[trigger] (c * k);
        assert(1int != c * k) by (nonlinear_arith)
            requires
                c > 1,
        ;
    }
}

} // verus!
