//! The identifier and its conversions.

use crate::bytes::{
    be_bytes, be_value, lemma_be_bytes, lemma_be_value_bound, lemma_pow256_16, lemma_pow256_le,
    lemma_pow256_positive, pow256,
};
use crate::compact::{
    all_compact_digits, compact_digit_value, compact_form, compact_len,
    compact_read, compact_value, decode_compact, encode_compact, is_short_digit,
    lemma_digits_len, lemma_digits_len_least, lemma_fixed_digits_value, lemma_padded_digits,
    lemma_pow32_25, lemma_pow32_26, lemma_value_bound, lemma_value_by_first, pow32, zeros,
};
use crate::hex::{format_hex, hex_form, hex_read, parse_hex, wrapped_hex_read};
use std::str::FromStr;
use vstd::arithmetic::div_mod::{lemma_div_denominator, lemma_small_mod};
use vstd::prelude::*;

verus! {

/// Why a text or a run of bytes is no identifier.
#[derive(Clone, Copy, Debug, PartialEq, Eq, Structural, Hash)]
pub enum Uuid32Error {
    /// The text is not in hex form.
    InvalidHexForm,
    /// The text is not in compact form.
    InvalidCompactForm,
    /// The text is in neither form.
    Unrecognized,
    /// The bytes are not 16.
    InvalidByteLength,
}

/// A 128-bit identifier. Two identifiers are equal when their values are, and
/// are ordered as their values are.
#[derive(Clone, Copy, Debug, PartialEq, Eq, Structural, Ord, Hash)]
pub struct Uuid32(pub u128);

impl View for Uuid32 {
    type V = u128;

    open spec fn view(&self) -> u128 {
        self.0
    }
}

impl Default for Uuid32 {
    /// The nil identifier.
    fn default() -> (r: Self)
        ensures
            r@ == 0,
    {
        Uuid32(0)
    }
}

/// What reading `s` in either form gives.
pub open spec fn any_read(s: Seq<char>) -> Option<u128> {
    if compact_read(s) is Some {
        compact_read(s)
    } else {
        hex_read(s)
    }
}

/// What reading `s` in either form gives, as the outcome of a conversion.
pub open spec fn decoded(s: Seq<char>) -> Result<Uuid32, Uuid32Error> {
    match any_read(s) {
        Some(v) => Ok(Uuid32(v)),
        None => Err(Uuid32Error::Unrecognized),
    }
}

/// Reads an identifier in either form: the compact form where the text is
/// one, else the hex form.
pub fn decode(value: &str) -> (r: Result<Uuid32, Uuid32Error>)
    ensures
        r == decoded(value@),
{
    match Uuid32::from_compact_form(value) {
        Ok(u) => Ok(u),
        Err(_) => match Uuid32::from_hex_form(value) {
            Ok(u) => Ok(u),
            Err(_) => Err(Uuid32Error::Unrecognized),
        },
    }
}

impl<'a> TryFrom<&'a str> for Uuid32 {
    type Error = Uuid32Error;

    fn try_from(value: &'a str) -> (r: Result<Self, Uuid32Error>) {
        decode(value)
    }
}

impl<'a> vstd::std_specs::convert::TryFromSpecImpl<&'a str> for Uuid32 {
    open spec fn obeys_try_from_spec() -> bool {
        true
    }

    open spec fn try_from_spec(v: &'a str) -> Result<Self, Uuid32Error> {
        decoded(v@)
    }
}

impl<'a> TryFrom<&'a String> for Uuid32 {
    type Error = Uuid32Error;

    fn try_from(value: &'a String) -> (r: Result<Self, Uuid32Error>) {
        decode(value.as_str())
    }
}

impl<'a> vstd::std_specs::convert::TryFromSpecImpl<&'a String> for Uuid32 {
    open spec fn obeys_try_from_spec() -> bool {
        true
    }

    open spec fn try_from_spec(v: &'a String) -> Result<Self, Uuid32Error> {
        decoded(v@)
    }
}

impl TryFrom<String> for Uuid32 {
    type Error = Uuid32Error;

    fn try_from(value: String) -> (r: Result<Self, Uuid32Error>) {
        decode(value.as_str())
    }
}

impl vstd::std_specs::convert::TryFromSpecImpl<String> for Uuid32 {
    open spec fn obeys_try_from_spec() -> bool {
        true
    }

    open spec fn try_from_spec(v: String) -> Result<Self, Uuid32Error> {
        decoded(v@)
    }
}

impl FromStr for Uuid32 {
    type Err = Uuid32Error;

    /// Reads an identifier in either form, as `decode` does.
    fn from_str(value: &str) -> (r: Result<Self, Uuid32Error>)
        ensures
            r == decoded(value@),
    {
        decode(value)
    }
}

impl Uuid32 {
    /// The identifier of value 0.
    pub fn nil() -> (r: Self)
        ensures
            r@ == 0,
    {
        Uuid32(0)
    }

    /// The identifier whose 128 bits are all set.
    pub fn max() -> (r: Self)
        ensures
            r@ == u128::MAX,
    {
        Uuid32(u128::MAX)
    }

    /// The identifier of value `v`.
    pub fn from_u128(v: u128) -> (r: Self)
        ensures
            r@ == v,
    {
        Uuid32(v)
    }

    /// The identifier's value.
    pub fn inner(&self) -> (v: u128)
        ensures
            v == self@,
    {
        self.0
    }

    /// The compact form: the value in base 32, in lowercase, in 25 digits,
    /// or in 26 where the value needs as many.
    pub fn to_compact_form(&self) -> (s: String)
        ensures
            s@ == compact_form(self@),
            s@.len() == compact_len(self@),
            compact_value(s@) == self@,
    {
        let digits = encode_compact(self.0);
        let n: usize = digits.as_str().unicode_len();
        proof {
            lemma_pow32_25();
            lemma_pow32_26();
            lemma_digits_len(self@ as nat, 26);
            if self@ as nat >= pow32(25) {
                lemma_digits_len_least(self@ as nat, 25);
            } else {
                lemma_digits_len(self@ as nat, 25);
            }
            lemma_padded_digits(self@ as nat, compact_len(self@));
            lemma_fixed_digits_value(self@ as nat, compact_len(self@));
            reveal_strlit("0");
            assert(zeros(0) =~= Seq::<char>::empty());
        }
        let mut out = String::new();
        let mut k: usize = n;
        while k < 25
            invariant
                n <= k,
                n <= 26,
                k == n || k <= 25,
                "0"@ == seq!['0'],
                out@ == zeros((k - n) as nat),
            decreases 25 - k,
        {
            out.append("0");
            k = k + 1;
            proof {
                assert(out@ =~= zeros((k - n) as nat));
            }
        }
        out.append(digits.as_str());
        out
    }

    /// The identifier as text, which is its compact form.
    pub fn to_string(&self) -> (s: String)
        ensures
            s@ == compact_form(self@),
            s@.len() == compact_len(self@),
            compact_value(s@) == self@,
    {
        self.to_compact_form()
    }

    /// The hex form: lowercase, in five groups with hyphens.
    pub fn to_hex_form(&self) -> (s: String)
        ensures
            s@ == hex_form(self@),
    {
        format_hex(self.0)
    }

    /// Reads a compact form, in either case: 25 digits, or 26 that denote a
    /// number of 128 bits.
    pub fn from_compact_form(s: &str) -> (r: Result<Self, Uuid32Error>)
        ensures
            match compact_read(s@) {
                Some(v) => r == Ok::<Self, Uuid32Error>(Uuid32(v)),
                None => r == Err::<Self, Uuid32Error>(Uuid32Error::InvalidCompactForm),
            },
    {
        let n: usize = s.unicode_len();
        if n != 25 && n != 26 {
            return Err(Uuid32Error::InvalidCompactForm);
        }
        if n == 26 {
            let first = s.get_char(0);
            proof {
                lemma_pow32_25();
                if all_compact_digits(s@) {
                    lemma_value_by_first(s@);
                    lemma_value_bound(s@.subrange(1, 26));
                    let d = compact_digit_value(s@[0]);
                    if d >= 8 {
                        assert(d * pow32(25) >= 8 * pow32(25)) by (nonlinear_arith)
                            requires
                                d >= 8,
                                pow32(25) > 0,
                        ;
                    } else {
                        assert(d * pow32(25) <= 7 * pow32(25)) by (nonlinear_arith)
                            requires
                                0 <= d <= 7,
                                pow32(25) > 0,
                        ;
                    }
                }
            }
            if !is_short_digit(first) {
                return Err(Uuid32Error::InvalidCompactForm);
            }
        } else {
            proof {
                lemma_pow32_25();
                if all_compact_digits(s@) {
                    lemma_value_bound(s@);
                }
            }
        }
        proof {
            if all_compact_digits(s@) {
                lemma_small_mod(compact_value(s@), u128::MAX as nat + 1);
            }
        }
        match decode_compact(s) {
            Ok(v) => Ok(Uuid32(v)),
            Err(_) => Err(Uuid32Error::InvalidCompactForm),
        }
    }

    /// Reads a hex form: 36 characters in five groups, or the 32 digits
    /// alone, in either case.
    pub fn from_hex_form(s: &str) -> (r: Result<Self, Uuid32Error>)
        ensures
            match hex_read(s@) {
                Some(v) => r == Ok::<Self, Uuid32Error>(Uuid32(v)),
                None => r == Err::<Self, Uuid32Error>(Uuid32Error::InvalidHexForm),
            },
    {
        let n: usize = s.unicode_len();
        if n != 32 && n != 36 {
            return Err(Uuid32Error::InvalidHexForm);
        }
        match parse_hex(s) {
            Ok(v) => Ok(Uuid32(v)),
            Err(_) => Err(Uuid32Error::InvalidHexForm),
        }
    }

    /// Reads either form: the compact form where the text is one, else the
    /// hex form.
    pub fn from_any_form(s: &str) -> (r: Result<Self, Uuid32Error>)
        ensures
            r == decoded(s@),
    {
        decode(s)
    }

    /// The 16 bytes of the value, most significant first.
    pub fn to_bytes(&self) -> (out: [u8; 16])
        ensures
            out@ == be_bytes(self@ as nat, 16),
    {
        let mut out: [u8; 16] = [0u8; 16];
        let mut x: u128 = self.0;
        let mut i: usize = 16;
        proof {
            lemma_be_bytes(self@ as nat, 16);
            assert(pow256(0) == 1);
            assert(self@ as nat / pow256(0) == self@ as nat);
        }
        while i > 0
            invariant
                i <= 16,
                be_bytes(self@ as nat, 16).len() == 16,
                x as nat == self@ as nat / pow256((16 - i) as nat),
                forall|j: int| i <= j < 16 ==> out@[j] == be_bytes(self@ as nat, 16)[j],
                forall|j: int|
                    0 <= j < 16 ==> #[trigger] be_bytes(self@ as nat, 16)[j] == (self@ as nat
                        / pow256((15 - j) as nat) % 256) as u8,
            decreases i,
        {
            proof {
                let k = (16 - i) as nat;
                lemma_pow256_positive(k);
                lemma_div_denominator(self@ as int, pow256(k) as int, 256);
                assert(pow256(k + 1) == 256 * pow256(k));
                assert(pow256(k) * 256 == pow256(k + 1));
            }
            i = i - 1;
            out[i] = (x % 256) as u8;
            x = x / 256;
        }
        assert(out@ =~= be_bytes(self@ as nat, 16));
        out
    }

    /// The identifier of 16 bytes, most significant first.
    pub fn from_bytes(b: &[u8]) -> (r: Result<Self, Uuid32Error>)
        ensures
            b@.len() == 16 ==> r == Ok::<Self, Uuid32Error>(Uuid32(be_value(b@) as u128)),
            b@.len() == 16 ==> be_value(b@) <= u128::MAX,
            b@.len() != 16 ==> r == Err::<Self, Uuid32Error>(Uuid32Error::InvalidByteLength),
    {
        if b.len() != 16 {
            return Err(Uuid32Error::InvalidByteLength);
        }
        let mut acc: u128 = 0;
        let mut i: usize = 0;
        while i < 16
            invariant
                i <= 16,
                b@.len() == 16,
                acc as nat == be_value(b@.take(i as int)),
            decreases 16 - i,
        {
            proof {
                let t = b@.take(i + 1);
                assert(t.drop_last() =~= b@.take(i as int));
                lemma_be_value_bound(t);
                lemma_be_value_bound(b@);
                lemma_pow256_16();
                lemma_pow256_le((i + 1) as nat, 16);
            }
            acc = acc * 256 + b[i] as u128;
            i = i + 1;
        }
        proof {
            assert(b@.take(16) =~= b@);
        }
        Ok(Uuid32(acc))
    }
}

} // verus!
