//! Decimal digit sequences: the mathematical model (a big-endian sequence of
//! digits and the natural number it denotes) and verified helpers shared by
//! the decomposer, the radix renderer and the fraction approximator.
use vstd::prelude::*;
use vstd::arithmetic::power::pow;
use vstd::arithmetic::power::lemma_pow_adds;
use vstd::arithmetic::power::lemma_pow_positive;
use vstd::arithmetic::power::lemma_pow_strictly_increases;
use vstd::arithmetic::div_mod::lemma_fundamental_div_mod;
use vstd::arithmetic::div_mod::lemma_fundamental_div_mod_converse;
use vstd::arithmetic::mul::lemma_mul_inequality;

verus! {

/// Total number of significant decimal digits a decimal128 value carries.
pub const PRECISION: u32 = 34;

/// Largest fractional digit count the library stores; `10^FRAC_LIMIT` must
/// fit in a `u128`, which caps it at 38.
pub const FRAC_LIMIT: u32 = 38;

/// The display character for a digit value below 36: `0`-`9` then `a`-`z`.
pub open spec fn digit_char(d: u8) -> char
    recommends
        d < 36,
{
    if d < 10 {
        ((d + 48) as u8) as char
    } else {
        ((d + 87) as u8) as char
    }
}

/// Every element is a valid digit for the given radix.
pub open spec fn digits_ok(s: Seq<u8>, radix: nat) -> bool {
    forall|i: int| 0 <= i < s.len() ==> (#[trigger] s[i]) < radix
}

/// The characters displaying a digit sequence (radix at most 36).
pub open spec fn digit_chars(s: Seq<u8>) -> Seq<char> {
    s.map_values(|d: u8| digit_char(d))
}

/// The natural number denoted by a big-endian digit sequence.
pub open spec fn digits_val(s: Seq<u8>, radix: nat) -> nat
    decreases s.len(),
{
    if s.len() == 0 {
        0
    } else {
        (digits_val(s.drop_last(), radix) * radix + s.last()) as nat
    }
}

/// The canonical (no leading zero) big-endian digit sequence of `n`, for
/// `n > 0`; `nat_digits(0, r)` is the empty sequence.
pub open spec fn nat_digits(n: nat, radix: nat) -> Seq<u8>
    recommends
        radix >= 2,
    decreases n,
    via nat_digits_decreases
{
    if n == 0 || radix < 2 {
        Seq::empty()
    } else {
        nat_digits(n / radix, radix).push((n % radix) as u8)
    }
}

#[via_fn]
proof fn nat_digits_decreases(n: nat, radix: nat) {
    if n != 0 && radix >= 2 {
        vstd::arithmetic::div_mod::lemma_div_is_strictly_smaller(n as int, radix as int);
    }
}

/// The canonical digit string of `n`, rendering zero as a single `0` digit.
pub open spec fn canon_digits(n: nat, radix: nat) -> Seq<u8> {
    if n == 0 {
        seq![0u8]
    } else {
        nat_digits(n, radix)
    }
}

/// A canonical integer-part digit vector: nonempty, valid digits, and no
/// leading zero unless the number is exactly `0`.
pub open spec fn canon_ok(s: Seq<u8>, radix: nat) -> bool {
    &&& s.len() >= 1
    &&& digits_ok(s, radix)
    &&& (s[0] == 0 ==> s.len() == 1)
}

pub proof fn lemma_digits_val_bound(s: Seq<u8>, radix: nat)
    requires
        digits_ok(s, radix),
        radix >= 2,
    ensures
        digits_val(s, radix) < pow(radix as int, s.len()),
    decreases s.len(),
{
    lemma_pow_positive(radix as int, s.len());
    if s.len() == 0 {
    } else {
        lemma_digits_val_bound(s.drop_last(), radix);
        lemma_pow_adds(radix as int, (s.len() - 1) as nat, 1);
        assert(pow(radix as int, 1) == radix) by {
            vstd::arithmetic::power::lemma_pow1(radix as int);
        }
        let v = digits_val(s.drop_last(), radix);
        let p = pow(radix as int, (s.len() - 1) as nat);
        lemma_mul_inequality(v as int + 1, p, radix as int);
        assert(v * radix + radix <= p * radix) by {
            assert((v + 1) * radix == v * radix + radix) by (nonlinear_arith);
        }
    }
}

pub proof fn lemma_nat_digits_ok(n: nat, radix: nat)
    requires
        2 <= radix <= 256,
    ensures
        digits_ok(nat_digits(n, radix), radix),
        digits_val(nat_digits(n, radix), radix) == n,
        n > 0 ==> nat_digits(n, radix).len() >= 1 && nat_digits(n, radix)[0] != 0,
    decreases n,
{
    if n == 0 {
    } else {
        let q = n / radix;
        let r = n % radix;
        vstd::arithmetic::div_mod::lemma_mod_division_less_than_divisor(n as int, radix as int);
        vstd::arithmetic::div_mod::lemma_div_pos_is_pos(n as int, radix as int);
        vstd::arithmetic::div_mod::lemma_div_is_strictly_smaller(n as int, radix as int);
        lemma_nat_digits_ok(q, radix);
        lemma_fundamental_div_mod(n as int, radix as int);
        let s = nat_digits(n, radix);
        let sq = nat_digits(q, radix);
        assert(r < radix);
        assert(s == sq.push(r as u8));
        assert(s.drop_last() =~= sq);
        assert(s.last() == r as u8 && r as u8 == r);
        assert(digits_val(s, radix) == digits_val(sq, radix) * radix + r);
        if q == 0 {
            assert(s.len() == 1);
            assert(s[0] == r as u8);
            assert(n < radix) by {
                vstd::arithmetic::div_mod::lemma_small_div_converse(n as int, radix as int);
            }
            assert(r == n) by {
                vstd::arithmetic::div_mod::lemma_small_mod(n, radix);
            }
            assert(r != 0);
            assert(digits_val(sq, radix) == 0);
        } else {
            assert(s[0] == sq[0]);
        }
    }
}

/// Canonical digit sequences are unique: a digit vector with no leading
/// zero is exactly the canonical rendering of its value.
pub proof fn lemma_canon_unique(s: Seq<u8>, radix: nat)
    requires
        radix >= 2,
        canon_ok(s, radix),
    ensures
        s == canon_digits(digits_val(s, radix), radix),
    decreases s.len(),
{
    let n = digits_val(s, radix);
    assert(digits_val(s.drop_last(), radix) * radix + s.last() == n);
    if s.len() == 1 {
        assert(s.drop_last().len() == 0);
        assert(digits_val(s.drop_last(), radix) == 0);
        assert(digits_val(s.drop_last(), radix) * radix == 0) by (nonlinear_arith)
            requires
                digits_val(s.drop_last(), radix) == 0,
        ;
        assert(s.last() == s[0]);
        if s[0] == 0 {
            assert(s =~= canon_digits(0, radix));
        } else {
            assert(n == s[0]);
            vstd::arithmetic::div_mod::lemma_small_mod(n, radix);
            vstd::arithmetic::div_mod::lemma_basic_div(n as int, radix as int);
            assert(n / radix == 0 && n % radix == n);
            assert(nat_digits(n, radix) == nat_digits(0, radix).push(n as u8));
            assert(nat_digits(n, radix) =~= s);
        }
    } else {
        let head = s.drop_last();
        let v = digits_val(head, radix);
        assert(canon_ok(head, radix)) by {
            assert(forall|i: int| 0 <= i < head.len() ==> (#[trigger] head[i]) == s[i]);
        }
        lemma_canon_unique(head, radix);
        assert(n == v * radix + s.last());
        lemma_fundamental_div_mod_converse(n as int, radix as int, v as int, s.last() as int);
        assert(n / radix == v && n % radix == s.last());
        assert(v > 0) by {
            if v == 0 {
                assert(head == canon_digits(0, radix));
                assert(head[0] == 0);
            }
        }
        assert(n > 0) by {
            lemma_mul_inequality(1, v as int, radix as int);
        }
        assert(nat_digits(n, radix) == nat_digits(v, radix).push(s.last()));
        assert(nat_digits(v, radix) == head);
        assert(nat_digits(n, radix) =~= s);
    }
}

pub proof fn lemma_canon_len_le(n: nat, radix: nat, k: nat)
    requires
        2 <= radix <= 256,
        n < pow(radix as int, k),
        k >= 1,
    ensures
        canon_digits(n, radix).len() <= k,
{
    let s = canon_digits(n, radix);
    lemma_nat_digits_ok(n, radix);
    if s.len() > k {
        assert(canon_ok(s, radix));
        lemma_digits_val_lower(s, radix);
        lemma_pow_strictly_increases(radix, k, (s.len() - 1) as nat);
        assert(pow(radix as int, k) <= pow(radix as int, (s.len() - 1) as nat));
    }
}

/// A canonical digit vector of length `l` denotes at least `radix^(l-1)`,
/// provided its leading digit is nonzero.
pub proof fn lemma_digits_val_lower(s: Seq<u8>, radix: nat)
    requires
        radix >= 2,
        digits_ok(s, radix),
        s.len() >= 1,
        s[0] != 0,
    ensures
        digits_val(s, radix) >= pow(radix as int, (s.len() - 1) as nat),
    decreases s.len(),
{
    if s.len() == 1 {
        assert(pow(radix as int, 0) == 1) by {
            vstd::arithmetic::power::lemma_pow0(radix as int);
        }
    } else {
        let head = s.drop_last();
        assert(head[0] == s[0]);
        lemma_digits_val_lower(head, radix);
        let p = pow(radix as int, (head.len() - 1) as nat);
        lemma_pow_adds(radix as int, (head.len() - 1) as nat, 1);
        vstd::arithmetic::power::lemma_pow1(radix as int);
        lemma_pow_positive(radix as int, (head.len() - 1) as nat);
        lemma_mul_inequality(p, digits_val(head, radix) as int, radix as int);
    }
}

/// Appending `k` zero digits multiplies the denoted value by `radix^k`.
pub proof fn lemma_digits_val_append_zeros(s: Seq<u8>, radix: nat, k: nat)
    requires
        radix >= 2,
    ensures
        digits_val(s + zero_digits(k), radix) == digits_val(s, radix) * pow(radix as int, k),
    decreases k,
{
    lemma_pow_positive(radix as int, k);
    if k == 0 {
        assert(s + zero_digits(0) =~= s);
        vstd::arithmetic::power::lemma_pow0(radix as int);
    } else {
        let t = s + zero_digits((k - 1) as nat);
        assert((s + zero_digits(k)).drop_last() =~= t);
        assert((s + zero_digits(k)).last() == 0);
        lemma_digits_val_append_zeros(s, radix, (k - 1) as nat);
        lemma_pow_adds(radix as int, (k - 1) as nat, 1);
        vstd::arithmetic::power::lemma_pow1(radix as int);
        let v = digits_val(s, radix) as int;
        let p = pow(radix as int, (k - 1) as nat);
        assert((v * p) * radix == v * (p * radix)) by (nonlinear_arith);
    }
}

/// Prepending `k` zero digits leaves the denoted value unchanged.
pub proof fn lemma_digits_val_prepend_zeros(s: Seq<u8>, radix: nat, k: nat)
    requires
        radix >= 2,
    ensures
        digits_val(zero_digits(k) + s, radix) == digits_val(s, radix),
    decreases s.len(),
{
    if s.len() == 0 {
        assert(zero_digits(k) + s =~= zero_digits(k));
        lemma_zero_digits_val(k, radix);
    } else {
        assert((zero_digits(k) + s).drop_last() =~= zero_digits(k) + s.drop_last());
        lemma_digits_val_prepend_zeros(s.drop_last(), radix, k);
    }
}

pub open spec fn zero_digits(k: nat) -> Seq<u8> {
    Seq::new(k, |i: int| 0u8)
}

pub proof fn lemma_zero_digits_val(k: nat, radix: nat)
    ensures
        digits_val(zero_digits(k), radix) == 0,
    decreases k,
{
    if k > 0 {
        assert(zero_digits(k).drop_last() =~= zero_digits((k - 1) as nat));
        lemma_zero_digits_val((k - 1) as nat, radix);
        assert(zero_digits(k).last() == 0);
        assert(digits_val(zero_digits(k), radix) == digits_val(zero_digits(k).drop_last(), radix)
            * radix + zero_digits(k).last());
    }
}

/// `10^38`, the largest power of ten below `2^128`.
pub proof fn lemma_pow10_38()
    ensures
        pow(10, 38) == 100000000000000000000000000000000000000,
{
    reveal_with_fuel(pow, 40);
}

/// Exact powers of ten as 128-bit integers, for exponents up to 38.
pub fn pow10_u128(e: u32) -> (r: u128)
    requires
        e <= 38,
    ensures
        r == pow(10, e as nat),
        r >= 1,
{
    proof {
        lemma_pow10_38();
        vstd::arithmetic::power::lemma_pow0(10);
    }
    let mut acc: u128 = 1;
    let mut i: u32 = 0;
    while i < e
        invariant
            i <= e <= 38,
            acc == pow(10, i as nat),
        decreases e - i,
    {
        proof {
            lemma_pow10_38();
            lemma_pow_adds(10, i as nat, 1);
            vstd::arithmetic::power::lemma_pow1(10);
            vstd::arithmetic::power::lemma_pow_increases(10, (i + 1) as nat, 38);
        }
        acc = acc * 10;
        i = i + 1;
    }
    proof {
        lemma_pow_positive(10, e as nat);
    }
    acc
}

/// Folds a big-endian decimal digit vector into the number it denotes.
pub fn digits_to_u128(d: &Vec<u8>) -> (r: u128)
    requires
        digits_ok(d@, 10),
        d@.len() <= 38,
    ensures
        r == digits_val(d@, 10),
{
    proof {
        lemma_pow10_38();
        vstd::arithmetic::power::lemma_pow0(10);
        assert(d@.subrange(0, 0).len() == 0);
        assert(digits_val(d@.subrange(0, 0), 10) == 0);
    }
    let mut acc: u128 = 0;
    let mut i: usize = 0;
    while i < d.len()
        invariant
            i <= d@.len() <= 38,
            digits_ok(d@, 10),
            acc == digits_val(d@.subrange(0, i as int), 10),
            acc < pow(10, i as nat),
        decreases d@.len() - i,
    {
        proof {
            lemma_pow10_38();
            assert(d@.subrange(0, i + 1).drop_last() =~= d@.subrange(0, i as int));
            lemma_pow_adds(10, i as nat, 1);
            vstd::arithmetic::power::lemma_pow1(10);
            vstd::arithmetic::power::lemma_pow_increases(10, (i + 1) as nat, 38);
            let p = pow(10, i as nat);
            lemma_mul_inequality(acc as int + 1, p, 10);
            assert((acc + 1) * 10 == acc * 10 + 10) by (nonlinear_arith);
        }
        acc = acc * 10 + (d[i] as u128);
        i = i + 1;
    }
    proof {
        assert(d@.subrange(0, d@.len() as int) =~= d@);
    }
    acc
}

/// Expands a number into its canonical big-endian decimal digit vector.
pub fn u128_to_digits(n: u128) -> (r: Vec<u8>)
    ensures
        r@ == canon_digits(n as nat, 10),
        canon_ok(r@, 10),
{
    proof {
        lemma_nat_digits_ok(n as nat, 10);
    }
    if n == 0 {
        let mut v: Vec<u8> = Vec::new();
        v.push(0u8);
        proof {
            assert(v@ =~= canon_digits(0, 10));
        }
        return v;
    }
    let mut rev: Vec<u8> = Vec::new();
    let mut m: u128 = n;
    while m > 0
        invariant
            rev@.len() <= 39,
            nat_digits(n as nat, 10) =~= nat_digits(m as nat, 10) + rev@.reverse(),
        decreases m,
    {
        proof {
            vstd::arithmetic::div_mod::lemma_mod_division_less_than_divisor(m as int, 10);
            vstd::arithmetic::div_mod::lemma_div_pos_is_pos(m as int, 10);
            vstd::arithmetic::div_mod::lemma_div_is_strictly_smaller(m as int, 10);
            lemma_nat_digits_ok(n as nat, 10);
            assert(nat_digits(m as nat, 10) == nat_digits((m / 10) as nat, 10).push(
                (m % 10) as u8,
            ));
            assert(nat_digits((m / 10) as nat, 10).push((m % 10) as u8) + rev@.reverse()
                =~= nat_digits((m / 10) as nat, 10) + rev@.push((m % 10) as u8).reverse());
            if nat_digits(n as nat, 10).len() > 39 {
                lemma_digits_len_39(n);
            }
        }
        rev.push((m % 10) as u8);
        m = m / 10;
    }
    let mut out: Vec<u8> = Vec::new();
    let mut i: usize = rev.len();
    while i > 0
        invariant
            i <= rev@.len(),
            out@ =~= rev@.reverse().subrange(0, rev@.len() - i),
        decreases i,
    {
        i = i - 1;
        let ghost pre = out@;
        out.push(rev[i]);
        proof {
            assert(out@ =~= rev@.reverse().subrange(0, rev@.len() - i));
        }
    }
    proof {
        assert(out@ =~= rev@.reverse());
        assert(nat_digits(m as nat, 10) + rev@.reverse() =~= rev@.reverse());
    }
    out
}

/// Concatenation splits the denoted value positionally.
pub proof fn lemma_digits_val_concat(a: Seq<u8>, b: Seq<u8>, radix: nat)
    requires
        radix >= 1,
    ensures
        digits_val(a + b, radix) == digits_val(a, radix) * pow(radix as int, b.len())
            + digits_val(b, radix),
    decreases b.len(),
{
    lemma_pow_positive(radix as int, b.len());
    if b.len() == 0 {
        assert(a + b =~= a);
        vstd::arithmetic::power::lemma_pow0(radix as int);
    } else {
        assert((a + b).drop_last() =~= a + b.drop_last());
        assert((a + b).last() == b.last());
        lemma_digits_val_concat(a, b.drop_last(), radix);
        lemma_pow_adds(radix as int, (b.len() - 1) as nat, 1);
        vstd::arithmetic::power::lemma_pow1(radix as int);
        let v = digits_val(a, radix) as int;
        let w = digits_val(b.drop_last(), radix) as int;
        let p = pow(radix as int, (b.len() - 1) as nat);
        let r = radix as int;
        assert((v * p + w) * r + b.last() == v * (p * r) + (w * r + b.last())) by (nonlinear_arith);
    }
}

/// Copies a digit vector.
pub fn copy_digits(d: &Vec<u8>) -> (r: Vec<u8>)
    ensures
        r@ == d@,
{
    let mut r: Vec<u8> = Vec::new();
    let mut i: usize = 0;
    while i < d.len()
        invariant
            i <= d@.len(),
            r@ =~= d@.subrange(0, i as int),
        decreases d@.len() - i,
    {
        r.push(d[i]);
        proof {
            assert(r@ =~= d@.subrange(0, i + 1));
        }
        i = i + 1;
    }
    proof {
        assert(d@.subrange(0, d@.len() as int) =~= d@);
    }
    r
}

/// Folds a decimal digit vector of any length into the number it denotes,
/// or `None` if that number does not fit a `u128`.
pub fn digits_to_u128_checked(d: &Vec<u8>) -> (r: Option<u128>)
    requires
        digits_ok(d@, 10),
    ensures
        r is Some <==> digits_val(d@, 10) <= u128::MAX,
        r is Some ==> r->Some_0 == digits_val(d@, 10),
{
    let mut acc: u128 = 0;
    let mut over = false;
    let mut i: usize = 0;
    while i < d.len()
        invariant
            i <= d@.len(),
            digits_ok(d@, 10),
            !over ==> acc == digits_val(d@.subrange(0, i as int), 10),
            over ==> digits_val(d@.subrange(0, i as int), 10) > u128::MAX,
        decreases d@.len() - i,
    {
        proof {
            assert(d@.subrange(0, i + 1).drop_last() =~= d@.subrange(0, i as int));
        }
        if !over {
            if acc <= (u128::MAX - (d[i] as u128)) / 10 {
                proof {
                    let m = u128::MAX as int;
                    let dd = d@[i as int] as int;
                    assert(acc * 10 + dd <= m) by {
                        assert(acc <= (m - dd) / 10);
                        vstd::arithmetic::div_mod::lemma_fundamental_div_mod(m - dd, 10);
                        assert(acc * 10 <= ((m - dd) / 10) * 10) by (nonlinear_arith)
                            requires acc <= (m - dd) / 10;
                    }
                }
                acc = acc * 10 + (d[i] as u128);
            } else {
                proof {
                    let m = u128::MAX as int;
                    let dd = d@[i as int] as int;
                    assert(acc * 10 + dd > m) by {
                        assert(acc > (m - dd) / 10);
                        vstd::arithmetic::div_mod::lemma_fundamental_div_mod(m - dd, 10);
                        assert(acc * 10 >= ((m - dd) / 10 + 1) * 10) by (nonlinear_arith)
                            requires acc >= (m - dd) / 10 + 1;
                    }
                }
                over = true;
            }
        } else {
            proof {
                let pre = digits_val(d@.subrange(0, i as int), 10) as int;
                assert(pre * 10 + d@[i as int] > u128::MAX) by (nonlinear_arith)
                    requires pre > u128::MAX, d@[i as int] >= 0;
            }
        }
        i = i + 1;
    }
    proof {
        assert(d@.subrange(0, d@.len() as int) =~= d@);
    }
    if over {
        None
    } else {
        Some(acc)
    }
}

/// Number of leading zero digits.
pub open spec fn lead_zeros(s: Seq<u8>) -> nat
    decreases s.len(),
{
    if s.len() == 0 || s[0] != 0 {
        0
    } else {
        1 + lead_zeros(s.subrange(1, s.len() as int))
    }
}

pub proof fn lemma_lead_zeros_at(s: Seq<u8>, k: int)
    requires
        0 <= k <= s.len(),
        forall|i: int| 0 <= i < k ==> s[i] == 0,
        k < s.len() ==> s[k] != 0,
    ensures
        lead_zeros(s) == k,
    decreases s.len(),
{
    if s.len() == 0 {
    } else if k == 0 {
    } else {
        let rest = s.subrange(1, s.len() as int);
        lemma_lead_zeros_at(rest, k - 1);
    }
}

/// The leading zero count is itself the index of the first nonzero digit.
pub proof fn lemma_lead_zeros_inv(s: Seq<u8>)
    ensures
        lead_zeros(s) <= s.len(),
        forall|i: int| 0 <= i < lead_zeros(s) ==> s[i] == 0,
        lead_zeros(s) < s.len() ==> s[lead_zeros(s) as int] != 0,
    decreases s.len(),
{
    if s.len() == 0 || s[0] != 0 {
    } else {
        let rest = s.subrange(1, s.len() as int);
        lemma_lead_zeros_inv(rest);
        assert(forall|i: int| 1 <= i < lead_zeros(s) ==> s[i] == rest[i - 1]);
        if lead_zeros(s) < s.len() {
            assert(s[lead_zeros(s) as int] == rest[lead_zeros(rest) as int]);
        }
    }
}

/// Trailing zeros vanish under trimming.
pub proof fn lemma_trim_append_zeros(a: Seq<u8>, k: nat)
    ensures
        trim_zeros(a + zero_digits(k)) == trim_zeros(a),
    decreases k,
{
    if k == 0 {
        assert(a + zero_digits(0) =~= a);
    } else {
        let t = a + zero_digits(k);
        assert(t.last() == 0);
        assert(t.drop_last() =~= a + zero_digits((k - 1) as nat));
        lemma_trim_append_zeros(a, (k - 1) as nat);
    }
}

/// Scaling a positive value by a power of ten appends zero digits to its
/// canonical form.
pub proof fn lemma_canon_mul_pow10(f: nat, k: nat)
    requires
        f > 0,
    ensures
        canon_digits((f * pow(10, k)) as nat, 10) == canon_digits(f, 10) + zero_digits(k),
{
    let c = canon_digits(f, 10);
    lemma_nat_digits_ok(f, 10);
    let e = c + zero_digits(k);
    lemma_digits_val_append_zeros(c, 10, k);
    lemma_pow_positive(10, k);
    assert(canon_ok(e, 10)) by {
        assert(e[0] == c[0]);
        assert(forall|i: int|
            0 <= i < e.len() ==> (#[trigger] e[i]) == if i < c.len() {
                c[i]
            } else {
                0u8
            });
    }
    lemma_canon_unique(e, 10);
    assert(f * pow(10, k) > 0) by (nonlinear_arith)
        requires
            f >= 1,
            pow(10, k) >= 1,
    ;
    assert(digits_val(e, 10) == f * pow(10, k));
}

/// The digit vector with trailing zero digits removed.
pub open spec fn trim_zeros(s: Seq<u8>) -> Seq<u8>
    decreases s.len(),
{
    if s.len() > 0 && s.last() == 0 {
        trim_zeros(s.drop_last())
    } else {
        s
    }
}

pub proof fn lemma_trim_zeros_at(s: Seq<u8>, k: int)
    requires
        0 <= k <= s.len(),
        forall|i: int| k <= i < s.len() ==> s[i] == 0,
        k > 0 ==> s[k - 1] != 0,
    ensures
        trim_zeros(s) == s.subrange(0, k),
    decreases s.len(),
{
    if s.len() == 0 {
        assert(trim_zeros(s) =~= s.subrange(0, 0));
    } else if k == s.len() as int {
        assert(trim_zeros(s) =~= s.subrange(0, k));
    } else {
        assert(s.last() == 0);
        lemma_trim_zeros_at(s.drop_last(), k);
        assert(s.drop_last().subrange(0, k) =~= s.subrange(0, k));
    }
}

/// The trimmed vector is a prefix of the original.
pub proof fn lemma_trim_zeros_prefix(s: Seq<u8>)
    ensures
        trim_zeros(s).len() <= s.len(),
        trim_zeros(s) == s.subrange(0, trim_zeros(s).len() as int),
    decreases s.len(),
{
    if s.len() > 0 && s.last() == 0 {
        lemma_trim_zeros_prefix(s.drop_last());
        assert(s.drop_last().subrange(0, trim_zeros(s).len() as int) =~= s.subrange(
            0,
            trim_zeros(s).len() as int,
        ));
    } else {
        assert(trim_zeros(s) =~= s.subrange(0, s.len() as int));
    }
}

/// What trimming leaves: everything past the cut is zero, and the last
/// kept digit, if any, is not.
pub proof fn lemma_trim_zeros_inv(s: Seq<u8>)
    ensures
        trim_zeros(s).len() <= s.len(),
        forall|i: int| trim_zeros(s).len() <= i < s.len() ==> s[i] == 0,
        trim_zeros(s).len() > 0 ==> s[trim_zeros(s).len() - 1] != 0,
    decreases s.len(),
{
    lemma_trim_zeros_prefix(s);
    if s.len() > 0 && s.last() == 0 {
        lemma_trim_zeros_inv(s.drop_last());
        assert(trim_zeros(s) == trim_zeros(s.drop_last()));
        assert forall|i: int| trim_zeros(s).len() <= i < s.len() implies s[i] == 0 by {
            if i < s.len() - 1 {
                assert(s.drop_last()[i] == s[i]);
            } else {
                assert(s[i] == s.last());
            }
        }
    }
}

/// Trimming an all-zero vector leaves nothing.
pub proof fn lemma_trim_all_zeros(s: Seq<u8>)
    requires
        forall|i: int| 0 <= i < s.len() ==> (#[trigger] s[i]) == 0,
    ensures
        trim_zeros(s).len() == 0,
{
    lemma_trim_zeros_at(s, 0);
    assert(trim_zeros(s) =~= s.subrange(0, 0));
}

/// Trimming distributes over a prefix when the suffix keeps a digit.
pub proof fn lemma_trim_concat(a: Seq<u8>, b: Seq<u8>)
    requires
        trim_zeros(b).len() > 0,
    ensures
        trim_zeros(a + b) == a + trim_zeros(b),
{
    lemma_trim_zeros_inv(b);
    lemma_trim_zeros_prefix(b);
    let k = trim_zeros(b).len() as int;
    lemma_trim_zeros_at(a + b, a.len() + k);
    assert((a + b).subrange(0, a.len() + k) =~= a + b.subrange(0, k));
    assert(b.subrange(0, k) =~= trim_zeros(b));
}

/// Removes trailing zero digits from a digit vector.
pub fn trim_trailing_zeros(d: &Vec<u8>) -> (r: Vec<u8>)
    ensures
        r@ == trim_zeros(d@),
{
    let mut k: usize = d.len();
    while k > 0 && d[k - 1] == 0
        invariant
            k <= d@.len(),
            forall|i: int| k <= i < d@.len() ==> d@[i] == 0,
        decreases k,
    {
        k = k - 1;
    }
    proof {
        lemma_trim_zeros_at(d@, k as int);
    }
    let mut r: Vec<u8> = Vec::new();
    let mut i: usize = 0;
    while i < k
        invariant
            i <= k <= d@.len(),
            r@ =~= d@.subrange(0, i as int),
        decreases k - i,
    {
        r.push(d[i]);
        proof {
            assert(r@ =~= d@.subrange(0, i + 1));
        }
        i = i + 1;
    }
    r
}

/// Relies on `alloc::string::String::push`: appends exactly the given
/// character to the end of the string.
pub assume_specification[ String::push ](s: &mut String, c: char)
    ensures
        final(s)@ == old(s)@.push(c),
;

/// Appends the display characters of a digit vector to a string.
pub fn push_digits(out: &mut String, d: &Vec<u8>)
    requires
        digits_ok(d@, 36),
    ensures
        final(out)@ == old(out)@ + digit_chars(d@),
{
    let mut i: usize = 0;
    while i < d.len()
        invariant
            i <= d@.len(),
            digits_ok(d@, 36),
            out@ == old(out)@ + digit_chars(d@.subrange(0, i as int)),
        decreases d@.len() - i,
    {
        let c: char = if d[i] < 10 {
            (d[i] + 48) as char
        } else {
            (d[i] + 87) as char
        };
        out.push(c);
        proof {
            assert(digit_chars(d@.subrange(0, i + 1)) =~= digit_chars(
                d@.subrange(0, i as int),
            ).push(digit_char(d@[i as int])));
            assert(out@ =~= old(out)@ + digit_chars(d@.subrange(0, i + 1)));
        }
        i = i + 1;
    }
    proof {
        assert(d@.subrange(0, d@.len() as int) =~= d@);
    }
}

/// Appends the decimal rendering of a number to a string.
pub fn push_u128(out: &mut String, n: u128)
    ensures
        final(out)@ == old(out)@ + digit_chars(canon_digits(n as nat, 10)),
{
    let d = u128_to_digits(n);
    push_digits(out, &d);
}

/// A run of `k` nine digits.
pub open spec fn nine_digits(k: nat) -> Seq<u8> {
    Seq::new(k, |i: int| 9u8)
}

/// Appending `k` nine digits takes the value `v` to `v * 10^k + 10^k - 1`.
pub proof fn lemma_digits_val_append_nines(s: Seq<u8>, k: nat)
    ensures
        digits_val(s + nine_digits(k), 10) == digits_val(s, 10) * pow(10, k) + pow(10, k) - 1,
    decreases k,
{
    lemma_pow_positive(10, k);
    if k == 0 {
        assert(s + nine_digits(0) =~= s);
        vstd::arithmetic::power::lemma_pow0(10);
    } else {
        let t = s + nine_digits((k - 1) as nat);
        assert((s + nine_digits(k)).drop_last() =~= t);
        assert((s + nine_digits(k)).last() == 9);
        lemma_digits_val_append_nines(s, (k - 1) as nat);
        lemma_pow_adds(10, (k - 1) as nat, 1);
        vstd::arithmetic::power::lemma_pow1(10);
        let v = digits_val(s, 10) as int;
        let p = pow(10, (k - 1) as nat);
        assert((v * p + p - 1) * 10 + 9 == v * (p * 10) + (p * 10) - 1) by (nonlinear_arith);
    }
}

/// Adds one to a canonical decimal digit vector, carrying as needed.
pub fn increment_digits(d: &Vec<u8>) -> (r: Vec<u8>)
    requires
        canon_ok(d@, 10),
    ensures
        canon_ok(r@, 10),
        digits_val(r@, 10) == digits_val(d@, 10) + 1,
{
    // Find the last digit below nine; everything after it is a nine and
    // rolls over to zero.
    let mut j: usize = d.len();
    while j > 0 && d[j - 1] == 9
        invariant
            j <= d@.len(),
            digits_ok(d@, 10),
            forall|i: int| j <= i < d@.len() ==> d@[i] == 9,
        decreases j,
    {
        j = j - 1;
    }
    proof {
        assert(d@ =~= d@.subrange(0, j as int) + nine_digits((d@.len() - j) as nat));
        lemma_digits_val_append_nines(d@.subrange(0, j as int), (d@.len() - j) as nat);
    }
    let mut r: Vec<u8> = Vec::new();
    if j == 0 {
        r.push(1u8);
        proof {
            assert(r@ =~= seq![1u8]);
            assert(r@.drop_last().len() == 0);
            assert(digits_val(r@, 10) == digits_val(r@.drop_last(), 10) * 10 + 1);
            assert(digits_val(d@.subrange(0, 0), 10) == 0);
        }
    } else {
        let mut i: usize = 0;
        while i < j - 1
            invariant
                j >= 1,
                i <= j - 1 <= d@.len() - 1,
                digits_ok(d@, 10),
                r@ =~= d@.subrange(0, i as int),
            decreases j - i,
        {
            r.push(d[i]);
            proof {
                assert(r@ =~= d@.subrange(0, i + 1));
            }
            i = i + 1;
        }
        r.push(d[j - 1] + 1);
        proof {
            assert(r@.drop_last() =~= d@.subrange(0, j - 1));
            assert(d@.subrange(0, j as int).drop_last() =~= d@.subrange(0, j - 1));
            assert(digits_val(r@, 10) == digits_val(d@.subrange(0, j as int), 10) + 1);
            assert(r@[0] != 0) by {
                if j == 1 {
                    assert(r@[0] == d@[0] + 1);
                } else {
                    assert(r@[0] == d@[0]);
                }
            }
        }
    }
    let ghost mid = r@;
    let mut k: usize = j;
    while k < d.len()
        invariant
            j <= k <= d@.len(),
            digits_ok(d@, 10),
            canon_ok(d@, 10),
            forall|i: int| j <= i < d@.len() ==> d@[i] == 9,
            mid.len() >= 1,
            mid[0] != 0,
            digits_ok(mid, 10),
            digits_val(mid, 10) == digits_val(d@.subrange(0, j as int), 10) + 1,
            r@ =~= mid + zero_digits((k - j) as nat),
        decreases d@.len() - k,
    {
        r.push(0u8);
        proof {
            assert(r@ =~= mid + zero_digits((k + 1 - j) as nat));
        }
        k = k + 1;
    }
    proof {
        let zn = (d@.len() - j) as nat;
        assert(d@ =~= d@.subrange(0, j as int) + nine_digits(zn));
        lemma_digits_val_append_nines(d@.subrange(0, j as int), zn);
        lemma_digits_val_append_zeros(mid, 10, zn);
        lemma_pow_positive(10, zn);
        assert(digits_val(r@, 10) == digits_val(mid, 10) * pow(10, zn));
        assert(digits_val(d@, 10) + 1 == (digits_val(d@.subrange(0, j as int), 10) + 1) * pow(
            10,
            zn,
        )) by {
            let a = digits_val(d@.subrange(0, j as int), 10) as int;
            let p = pow(10, zn);
            assert(a * p + p - 1 + 1 == (a + 1) * p) by (nonlinear_arith);
        }
        assert(r@[0] == mid[0]);
    }
    r
}

/// The ten's complement of a nonzero fractional digit vector: the digits of
/// `10^len - value`, at the same width.
pub fn complement_digits(d: &Vec<u8>) -> (r: Vec<u8>)
    requires
        digits_ok(d@, 10),
        1 <= d@.len() <= 38,
        digits_val(d@, 10) > 0,
    ensures
        digits_ok(r@, 10),
        r@.len() == d@.len(),
        digits_val(r@, 10) == pow(10, d@.len()) - digits_val(d@, 10),
{
    let v = digits_to_u128(d);
    let len32 = d.len() as u32;
    let p = pow10_u128(len32);
    proof {
        lemma_digits_val_bound(d@, 10);
    }
    let c = p - v;
    let cd = u128_to_digits(c);
    proof {
        lemma_nat_digits_ok(c as nat, 10);
        lemma_canon_len_le(c as nat, 10, d@.len());
    }
    // Pad with leading zeros back to the original width.
    let mut r: Vec<u8> = Vec::new();
    let pad = d.len() - cd.len();
    let mut i: usize = 0;
    while i < pad
        invariant
            i <= pad,
            r@ =~= zero_digits(i as nat),
        decreases pad - i,
    {
        r.push(0u8);
        proof {
            assert(r@ =~= zero_digits((i + 1) as nat));
        }
        i = i + 1;
    }
    let mut k: usize = 0;
    while k < cd.len()
        invariant
            k <= cd@.len(),
            r@ =~= zero_digits(pad as nat) + cd@.subrange(0, k as int),
        decreases cd@.len() - k,
    {
        r.push(cd[k]);
        proof {
            assert(r@ =~= zero_digits(pad as nat) + cd@.subrange(0, k + 1));
        }
        k = k + 1;
    }
    proof {
        assert(cd@.subrange(0, cd@.len() as int) =~= cd@);
        lemma_digits_val_prepend_zeros(cd@, 10, pad as nat);
        assert(forall|i: int|
            0 <= i < r@.len() ==> (#[trigger] r@[i]) == (zero_digits(pad as nat) + cd@)[i]);
    }
    r
}

/// A decimal digit vector is never longer than 39 digits when it denotes a
/// `u128` value.
proof fn lemma_digits_len_39(n: u128)
    ensures
        nat_digits(n as nat, 10).len() <= 39,
{
    lemma_nat_digits_ok(n as nat, 10);
    if n > 0 {
        let s = nat_digits(n as nat, 10);
        if s.len() > 39 {
            lemma_digits_val_lower(s, 10);
            assert(pow(10, 39) <= pow(10, (s.len() - 1) as nat)) by {
                if s.len() - 1 > 39 {
                    lemma_pow_strictly_increases(10, 39, (s.len() - 1) as nat);
                }
            }
            assert(pow(10, 39) == pow(10, 38) * 10) by {
                lemma_pow_adds(10, 38, 1);
                vstd::arithmetic::power::lemma_pow1(10);
            }
            lemma_pow10_38();
        }
    }
}

} // verus!
