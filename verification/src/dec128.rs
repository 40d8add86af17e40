//! The decimal128 value model: a sign, an exact integer digit sequence and
//! an exact fractional digit sequence, together with parsing from and
//! rendering to canonical decimal strings.
use vstd::prelude::*;
use vstd::arithmetic::power::pow;
use crate::digits::canon_ok;
use crate::digits::digit_char;
use crate::digits::digit_chars;
use crate::digits::digits_ok;
use crate::digits::digits_val;
use crate::digits::push_digits;

verus! {

/// A signed fixed-precision decimal value held as exact decimal digits.
///
/// The integer part is canonical (no leading zero); the fractional part
/// keeps its scale, trailing zeros included, exactly as written.
pub struct Dec128 {
    pub negative: bool,
    pub int_digits: Vec<u8>,
    pub frac_digits: Vec<u8>,
}

impl Dec128 {
    /// Well-formedness: valid digit vectors, canonical integer part, a
    /// bounded fractional scale, and no negative zero.
    pub open spec fn wf(self) -> bool {
        &&& canon_ok(self.int_digits@, 10)
        &&& digits_ok(self.frac_digits@, 10)
        &&& self.frac_digits@.len() <= crate::digits::FRAC_LIMIT
        &&& (self.negative ==> self.int_val() + self.frac_val() > 0)
    }

    pub open spec fn int_val(self) -> nat {
        digits_val(self.int_digits@, 10)
    }

    pub open spec fn frac_val(self) -> nat {
        digits_val(self.frac_digits@, 10)
    }

    pub open spec fn frac_len(self) -> nat {
        self.frac_digits@.len()
    }

    /// The absolute value scaled to an integer: `|v| * 10^frac_len`.
    pub open spec fn scaled_abs(self) -> nat {
        (self.int_val() * pow(10, self.frac_len()) + self.frac_val()) as nat
    }

    /// The signed value scaled to an integer: `v * 10^frac_len`.
    pub open spec fn signed_scaled(self) -> int {
        if self.negative {
            -(self.scaled_abs() as int)
        } else {
            self.scaled_abs() as int
        }
    }

    pub open spec fn is_zero(self) -> bool {
        self.int_val() == 0 && self.frac_val() == 0
    }

    /// The canonical decimal string of this value.
    pub open spec fn dec_string(self) -> Seq<char> {
        (if self.negative {
            seq!['-']
        } else {
            Seq::<char>::empty()
        }) + digit_chars(self.int_digits@) + (if self.frac_digits@.len() > 0 {
            seq!['.'] + digit_chars(self.frac_digits@)
        } else {
            Seq::<char>::empty()
        })
    }

    /// Renders the value as its canonical decimal string, keeping the
    /// fractional scale exactly (no trailing-zero trimming).
    pub fn to_string(&self) -> (r: String)
        requires
            self.wf(),
        ensures
            r@ == self.dec_string(),
    {
        let mut out = String::new();
        if self.negative {
            out.push('-');
        }
        proof {
            assert(digits_ok(self.int_digits@, 36));
            assert(digits_ok(self.frac_digits@, 36));
        }
        push_digits(&mut out, &self.int_digits);
        if self.frac_digits.len() > 0 {
            out.push('.');
            push_digits(&mut out, &self.frac_digits);
        }
        proof {
            assert(out@ =~= self.dec_string());
        }
        out
    }
}

/// A decimal digit character.
pub open spec fn dec_digit(c: char) -> bool {
    '0' <= c && c <= '9'
}

/// The digit value of a decimal digit character.
pub open spec fn char_digit(c: char) -> u8 {
    ((c as u32) - 48) as u8
}

/// The digit values of a digit character sequence.
pub open spec fn char_digits(s: Seq<char>) -> Seq<u8> {
    s.map_values(|c: char| char_digit(c))
}

/// Index of the first `.` in the sequence, or its length if there is none.
pub open spec fn dot_pos(t: Seq<char>) -> int
    decreases t.len(),
{
    if t.len() == 0 {
        0
    } else if t[0] == '.' {
        0
    } else {
        1 + dot_pos(t.subrange(1, t.len() as int))
    }
}

pub proof fn lemma_dot_pos(t: Seq<char>)
    ensures
        0 <= dot_pos(t) <= t.len(),
        dot_pos(t) < t.len() ==> t[dot_pos(t)] == '.',
        forall|i: int| 0 <= i < dot_pos(t) ==> t[i] != '.',
    decreases t.len(),
{
    if t.len() == 0 {
    } else if t[0] == '.' {
    } else {
        let rest = t.subrange(1, t.len() as int);
        lemma_dot_pos(rest);
        assert(forall|i: int| 0 <= i < dot_pos(rest) ==> rest[i] != '.');
        assert(forall|i: int| 1 <= i < dot_pos(t) ==> t[i] == rest[i - 1]);
    }
}

/// The body of a decimal literal after an optional leading minus sign.
pub open spec fn literal_body(t: Seq<char>) -> Seq<char> {
    if t.len() >= 1 && t[0] == '-' {
        t.subrange(1, t.len() as int)
    } else {
        t
    }
}

pub open spec fn literal_negative(t: Seq<char>) -> bool {
    t.len() >= 1 && t[0] == '-'
}

/// The integer-part characters of a candidate literal: the body up to the
/// first point.
pub open spec fn lit_ip(t: Seq<char>) -> Seq<char> {
    literal_body(t).subrange(0, dot_pos(literal_body(t)))
}

/// The fractional-part characters of a candidate literal: the body after
/// the first point, empty when there is none.
pub open spec fn lit_fp(t: Seq<char>) -> Seq<char> {
    let u = literal_body(t);
    if dot_pos(u) < u.len() {
        u.subrange(dot_pos(u) + 1, u.len() as int)
    } else {
        Seq::<char>::empty()
    }
}

/// The canonical decimal literal grammar: an optional minus sign, a
/// canonical integer digit run, then optionally a point and at least one
/// fractional digit (at most 38), with no minus sign on a zero value.
pub open spec fn dec_literal(t: Seq<char>) -> bool {
    let u = literal_body(t);
    &&& lit_ip(t).len() >= 1
    &&& (forall|i: int| 0 <= i < lit_ip(t).len() ==> dec_digit(#[trigger] lit_ip(t)[i]))
    &&& (lit_ip(t)[0] == '0' ==> lit_ip(t).len() == 1)
    &&& (dot_pos(u) < u.len() ==> lit_fp(t).len() >= 1)
    &&& (forall|i: int| 0 <= i < lit_fp(t).len() ==> dec_digit(#[trigger] lit_fp(t)[i]))
    &&& lit_fp(t).len() <= 38
    &&& (literal_negative(t) ==> ((exists|i: int| 0 <= i < lit_ip(t).len() && lit_ip(t)[i]
        != '0') || (exists|i: int| 0 <= i < lit_fp(t).len() && lit_fp(t)[i] != '0')))
}

/// A digit vector denotes zero exactly when every digit is zero.
pub proof fn lemma_digits_val_zero(s: Seq<u8>)
    ensures
        digits_val(s, 10) == 0 <==> (forall|i: int| 0 <= i < s.len() ==> (#[trigger] s[i]) == 0),
    decreases s.len(),
{
    if s.len() > 0 {
        lemma_digits_val_zero(s.drop_last());
        assert(forall|i: int|
            0 <= i < s.len() - 1 ==> (#[trigger] s[i]) == s.drop_last()[i]);
        if digits_val(s, 10) == 0 {
            assert(digits_val(s.drop_last(), 10) * 10 + s.last() == 0);
            assert(digits_val(s.drop_last(), 10) == 0 && s.last() == 0);
        } else {
            if forall|i: int| 0 <= i < s.len() ==> (#[trigger] s[i]) == 0 {
                assert(s.last() == 0);
                assert(digits_val(s.drop_last(), 10) == 0);
            }
        }
    }
}

/// Scans the longest run of decimal digit characters starting at `from`,
/// returning their values and the position where the run ends.
fn scan_digits(s: &str, from: usize, len: usize) -> (r: (Vec<u8>, usize))
    requires
        from <= len == s@.len(),
    ensures
        from <= r.1 <= len,
        digits_ok(r.0@, 10),
        digit_chars(r.0@) =~= s@.subrange(from as int, r.1 as int),
        r.0@.len() == r.1 as int - from as int,
        forall|i: int| from as int <= i < r.1 as int ==> dec_digit(#[trigger] s@[i]),
        r.1 < len ==> !dec_digit(s@[r.1 as int]),
{
    let ghost t = s@;
    let mut pos = from;
    let mut digits: Vec<u8> = Vec::new();
    let mut stop = false;
    while pos < len && !stop
        invariant
            s@ == t,
            len == t.len(),
            from <= pos <= len,
            stop ==> pos < len && !dec_digit(t[pos as int]),
            digits_ok(digits@, 10),
            digit_chars(digits@) =~= t.subrange(from as int, pos as int),
            digits@.len() == pos as int - from as int,
            forall|i: int| from as int <= i < pos as int ==> dec_digit(#[trigger] t[i]),
        decreases len - pos, (if stop { 0int } else { 1int }),
    {
        let c = s.get_char(pos);
        if c >= '0' && c <= '9' {
            let d: u8 = ((c as u32) - 48) as u8;
            digits.push(d);
            proof {
                vstd::utf8::char_u32_cast(c, c as u32);
                assert((d + 48) as u8 == c as u32);
                assert(digit_char(d) == c);
                assert(digit_chars(digits@) =~= t.subrange(from as int, pos as int + 1));
            }
            pos = pos + 1;
        } else {
            stop = true;
        }
    }
    (digits, pos)
}

/// True exactly when every digit in the vector is zero, that is, when the
/// vector denotes the value zero.
pub(crate) fn digits_all_zero(d: &Vec<u8>) -> (r: bool)
    ensures
        r <==> digits_val(d@, 10) == 0,
{
    proof {
        lemma_digits_val_zero(d@);
    }
    let mut all_zero = true;
    let mut i: usize = 0;
    while i < d.len()
        invariant
            i <= d@.len(),
            all_zero <==> (forall|k: int| 0 <= k < i as int ==> d@[k] == 0),
        decreases d@.len() - i,
    {
        if d[i] != 0 {
            all_zero = false;
        }
        i = i + 1;
    }
    all_zero
}

/// Parses a canonical decimal literal. Returns the parsed value exactly
/// when the input matches the grammar, and `None` otherwise.
#[verifier::rlimit(50)]
pub fn parse_dec128(s: &str) -> (r: Option<Dec128>)
    ensures
        r is Some <==> dec_literal(s@),
        r is Some ==> r->Some_0.wf() && r->Some_0.dec_string() == s@,
{
    let len = s.unicode_len();
    let ghost t = s@;
    let mut pos: usize = 0;
    let mut negative = false;
    if len >= 1 && s.get_char(0) == '-' {
        negative = true;
        pos = 1;
    }
    let ghost u = literal_body(t);
    let ghost start = pos as int;
    proof {
        assert(u =~= t.subrange(start, t.len() as int));
        lemma_dot_pos(u);
        assert(forall|i: int| 0 <= i < u.len() ==> u[i] == t[start + i]);
    }
    let (int_digits, ip_end) = scan_digits(s, pos, len);
    let ghost p = dot_pos(u);
    let ghost ip = lit_ip(t);
    let ghost fp = lit_fp(t);
    proof {
        assert(ip == u.subrange(0, p));
        assert(p < u.len() ==> fp == u.subrange(p + 1, u.len() as int));
        assert(p >= u.len() ==> fp == Seq::<char>::empty());
    }
    // The integer run must be nonempty and must not carry a useless
    // leading zero.
    if int_digits.len() == 0 {
        proof {
            if dec_literal(t) {
                assert(ip.len() >= 1);
                assert(dec_digit(ip[0]));
                assert(ip[0] == u[0] && u[0] == t[start]);
                assert(ip_end as int > start);
            }
        }
        return None;
    }
    if int_digits.len() > 1 && int_digits[0] == 0 {
        proof {
            if dec_literal(t) {
                assert(u[0] == t[start] && t[start] == digit_char(int_digits@[0]));
                assert(ip[0] == '0');
                assert(ip.len() == 1);
                assert(p == 1);
                assert(u[1] == t[start + 1] && dec_digit(t[start + 1]));
                assert(u[p] == '.');
            }
        }
        return None;
    }
    proof {
        // The integer run stops exactly at the first point, if any.
        if (ip_end as int) < t.len() {
            assert(!dec_digit(t[ip_end as int]));
        }
    }
    let mut frac_digits: Vec<u8> = Vec::new();
    let mut frac_end = ip_end;
    if ip_end < len {
        let c = s.get_char(ip_end);
        if c != '.' {
            proof {
                if dec_literal(t) {
                    let k = ip_end as int - start;
                    assert(u[k] == t[ip_end as int] && t[ip_end as int] != '.');
                    assert(p != k);
                    if p < k {
                        assert(u[p] == '.');
                        assert(dec_digit(t[start + p]));
                    } else {
                        assert(ip[k] == u[k]);
                        assert(dec_digit(u[k]));
                    }
                }
            }
            return None;
        }
        proof {
            assert(t[ip_end as int] == '.');
            assert(u[ip_end as int - start] == '.');
            assert(p == ip_end as int - start) by {
                if p < ip_end as int - start {
                    assert(u[p] == '.');
                    assert(dec_digit(t[start + p]));
                }
            }
        }
        // Consume the point, then the fractional digit run, which must
        // reach the end of the input.
        let (fd, fe) = scan_digits(s, ip_end + 1, len);
        frac_digits = fd;
        frac_end = fe;
        proof {
            assert(forall|i: int| 0 <= i < fp.len() ==> fp[i] == t[ip_end as int + 1 + i]);
        }
        if frac_end < len {
            proof {
                if dec_literal(t) {
                    let k = frac_end as int - ip_end - 1;
                    assert(fp[k] == t[frac_end as int]);
                    assert(dec_digit(fp[k]));
                }
            }
            return None;
        }
        if frac_digits.len() == 0 {
            proof {
                if dec_literal(t) {
                    assert(fp.len() >= 1);
                    assert(fp[0] == t[ip_end as int + 1]);
                    assert(dec_digit(fp[0]));
                }
            }
            return None;
        }
        if frac_digits.len() > (crate::digits::FRAC_LIMIT as usize) {
            proof {
                if dec_literal(t) {
                    assert(fp.len() == frac_digits@.len()) by {
                        assert(fp =~= digit_chars(frac_digits@));
                    }
                }
            }
            return None;
        }
    } else {
        proof {
            assert(p == u.len()) by {
                if p < u.len() {
                    assert(u[p] == '.');
                    assert(dec_digit(t[start + p]));
                }
            }
        }
    }
    proof {
        assert(p == ip_end as int - start);
        assert(ip =~= digit_chars(int_digits@));
        assert(fp =~= digit_chars(frac_digits@)) by {
            if p < u.len() {
                assert(forall|i: int| 0 <= i < fp.len() ==> fp[i] == t[ip_end as int + 1 + i]);
            }
        }
    }
    // No minus sign may stand on a zero value.
    if negative {
        let iz = digits_all_zero(&int_digits);
        let fz = digits_all_zero(&frac_digits);
        if iz && fz {
            proof {
                lemma_digits_val_zero(int_digits@);
                lemma_digits_val_zero(frac_digits@);
                if dec_literal(t) {
                    assert forall|i: int| 0 <= i < ip.len() implies ip[i] == '0' by {
                        assert(ip[i] == digit_char(int_digits@[i]));
                        assert(int_digits@[i] == 0);
                    }
                    assert forall|i: int| 0 <= i < fp.len() implies fp[i] == '0' by {
                        assert(fp[i] == digit_char(frac_digits@[i]));
                        assert(frac_digits@[i] == 0);
                    }
                }
            }
            return None;
        }
    }
    let v = Dec128 { negative, int_digits, frac_digits };
    proof {
        assert forall|i: int| 0 <= i < ip.len() implies dec_digit(#[trigger] ip[i]) by {
            assert(ip[i] == digit_char(v.int_digits@[i]));
        }
        assert forall|i: int| 0 <= i < fp.len() implies dec_digit(#[trigger] fp[i]) by {
            assert(fp[i] == digit_char(v.frac_digits@[i]));
        }
        assert(ip[0] == '0' ==> ip.len() == 1) by {
            if ip[0] == '0' && ip.len() > 1 {
                assert(v.int_digits@[0] == char_digit(ip[0]));
            }
        }
        if negative {
            lemma_digits_val_zero(v.int_digits@);
            lemma_digits_val_zero(v.frac_digits@);
            assert((exists|i: int| 0 <= i < ip.len() && ip[i] != '0') || (exists|i: int|
                0 <= i < fp.len() && fp[i] != '0')) by {
                if exists|i: int| 0 <= i < v.int_digits@.len() && v.int_digits@[i] != 0 {
                    let wi = choose|i: int|
                        0 <= i < v.int_digits@.len() && v.int_digits@[i] != 0;
                    assert(ip[wi] == digit_char(v.int_digits@[wi]));
                    assert(ip[wi] != '0');
                } else {
                    let wk = choose|i: int|
                        0 <= i < v.frac_digits@.len() && v.frac_digits@[i] != 0;
                    assert(fp[wk] == digit_char(v.frac_digits@[wk]));
                    assert(fp[wk] != '0');
                }
            }
        }
        assert(dec_literal(t));
        assert(v.dec_string() =~= t) by {
            assert(u =~= ip + (if fp.len() > 0 {
                seq!['.'] + fp
            } else {
                Seq::<char>::empty()
            }));
            assert(t =~= (if literal_negative(t) {
                seq!['-']
            } else {
                Seq::<char>::empty()
            }) + u);
        }
    }
    Some(v)
}

} // verus!
