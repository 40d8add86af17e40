//! Exact rendering of high-precision signed decimal values: decimal
//! decomposition, positional numerals in an arbitrary radix, and
//! low-denominator rational approximations of the fractional part.
pub mod digits;
pub mod dec128;
pub mod conversions;
pub mod fractions;
pub mod bignum;
pub mod radix;

use vstd::prelude::*;

verus! {

/// A rendered result handed back across the host boundary: the numeral
/// string, the display unit, and the base it was rendered in.
pub struct NumOutput {
    pub num: String,
    pub unit: String,
    pub radix: u8,
}

impl NumOutput {
    pub fn new(num: String, unit: String, radix: u8) -> (r: Self)
        ensures
            r.num == num,
            r.unit == unit,
            r.radix == radix,
    {
        NumOutput { num, unit, radix }
    }

    /// Renders the output as `num; unit; radix`.
    pub fn to_string(&self) -> (r: String)
        ensures
            r@ == self.num@ + seq![';', ' '] + self.unit@ + seq![';', ' '] + digits::digit_chars(
                digits::canon_digits(self.radix as nat, 10),
            ),
    {
        let mut out = self.num.clone();
        out.push(';');
        out.push(' ');
        out.append(self.unit.as_str());
        out.push(';');
        out.push(' ');
        digits::push_u128(&mut out, self.radix as u128);
        proof {
            assert(out@ =~= self.num@ + seq![';', ' '] + self.unit@ + seq![';', ' ']
                + digits::digit_chars(digits::canon_digits(self.radix as nat, 10)));
        }
        out
    }
}

} // verus!
