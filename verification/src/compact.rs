//! The compact form: the identifier's value written in base 32 with the
//! lowercase Crockford alphabet, most significant digit first, in 25 digits,
//! or in 26 where 25 cannot hold the value.

use fast32::base32::CROCKFORD_LOWER;
use uuid::Uuid;
use vstd::prelude::*;

verus! {

/// The error of `fast32` on a text that it cannot read.
#[verifier::external_type_specification]
#[verifier::external_body]
pub struct ExDecodeError(fast32::DecodeError);

/// Calls `encode_uuid` of `fast32`'s lowercase Crockford alphabet. Trusted:
/// the result is the value in base 32, one character of that alphabet for
/// each digit, as many digits as the value needs and at least one.
#[verifier::external_body]
pub(crate) fn encode_compact(v: u128) -> (s: String)
    ensures
        s@ == compact_digits(v as nat),
{
    CROCKFORD_LOWER.encode_uuid(Uuid::from_u128(v))
}

/// Calls `decode_uuid_str` of `fast32`'s lowercase Crockford alphabet.
/// Trusted: it succeeds on the texts of at most 26 characters that all stand
/// for a digit, the empty text among them, and then gives the number that the
/// digits denote, of which 128 bits are kept.
#[verifier::external_body]
pub(crate) fn decode_compact(s: &str) -> (r: Result<u128, fast32::DecodeError>)
    ensures
        r is Ok <==> wrapping_read(s@) is Some,
        r is Ok ==> wrapping_read(s@) == Some(r->Ok_0),
{
    match CROCKFORD_LOWER.decode_uuid_str(s) {
        Ok(u) => Ok(u.as_u128()),
        Err(e) => Err(e),
    }
}

/// The length of the compact form of most values.
pub const COMPACT_LEN: usize = 25;

/// The length of the compact form of the values from `COMPACT_LONG_FROM` on.
pub const COMPACT_MAX_LEN: usize = 26;

/// The least value that 25 digits cannot hold: 32 to the power 25.
pub const COMPACT_LONG_FROM: u128 = 0x2000_0000_0000_0000_0000_0000_0000_0000;

/// The character that stands for the base-32 digit `d`.
pub open spec fn compact_digit(d: int) -> char {
    if d < 10 {
        ((48 + d) as u8) as char
    } else if d < 18 {
        ((87 + d) as u8) as char
    } else if d < 20 {
        ((88 + d) as u8) as char
    } else if d < 22 {
        ((89 + d) as u8) as char
    } else if d < 27 {
        ((90 + d) as u8) as char
    } else {
        ((91 + d) as u8) as char
    }
}

/// The position of an ASCII letter in the alphabet, from 0 for `a` or `A`,
/// and -1 for any other character.
pub open spec fn letter_index(c: char) -> int {
    let n = c as u32 as int;
    if 97 <= n <= 122 {
        n - 97
    } else if 65 <= n <= 90 {
        n - 65
    } else {
        -1
    }
}

/// The base-32 digit that a character stands for when read, or -1 where it
/// stands for none. Letters are read in either case; `i` and `l` are read
/// as 1, `o` as 0, and `u` is no digit.
pub open spec fn compact_digit_value(c: char) -> int {
    let n = c as u32 as int;
    let l = letter_index(c);
    if 48 <= n <= 57 {
        n - 48
    } else if l < 0 || l == 20 {
        -1
    } else if l < 8 {
        l + 10
    } else if l == 8 || l == 11 {
        1
    } else if l == 14 {
        0
    } else if l < 11 {
        l + 9
    } else if l < 14 {
        l + 8
    } else if l < 20 {
        l + 7
    } else {
        l + 6
    }
}

/// The digits of `v` in base 32 without leading zeros: one digit for 0.
pub open spec fn compact_digits(v: nat) -> Seq<char>
    decreases v,
{
    if v < 32 {
        seq![compact_digit(v as int)]
    } else {
        compact_digits(v / 32).push(compact_digit((v % 32) as int))
    }
}

/// Every character of `s` stands for a digit.
pub open spec fn all_compact_digits(s: Seq<char>) -> bool {
    forall|i: int| 0 <= i < s.len() ==> compact_digit_value(#[trigger] s[i]) >= 0
}

/// The number that the digits of `s` denote in base 32.
pub open spec fn compact_value(s: Seq<char>) -> nat
    decreases s.len(),
{
    if s.len() == 0 {
        0
    } else {
        (compact_value(s.drop_last()) * 32 + compact_digit_value(s.last())) as nat
    }
}

/// The number that at most 26 digits denote, cut to 128 bits; nothing for
/// a longer text and for one that holds another character.
pub open spec fn wrapping_read(s: Seq<char>) -> Option<u128> {
    if s.len() <= COMPACT_MAX_LEN && all_compact_digits(s) {
        Some((compact_value(s) % (u128::MAX as nat + 1)) as u128)
    } else {
        None
    }
}

/// The last `n` digits of `v` in base 32, most significant first.
pub open spec fn fixed_digits(v: nat, n: nat) -> Seq<char>
    decreases n,
{
    if n == 0 {
        Seq::empty()
    } else {
        fixed_digits(v / 32, (n - 1) as nat).push(compact_digit((v % 32) as int))
    }
}

/// The number of characters of the compact form of `v`.
pub open spec fn compact_len(v: u128) -> nat {
    if v < COMPACT_LONG_FROM {
        25
    } else {
        26
    }
}

/// The compact form of `v`: its 25 digits, or its 26 where it has as many.
pub open spec fn compact_form(v: u128) -> Seq<char> {
    fixed_digits(v as nat, compact_len(v))
}

/// What reading `s` as a compact form gives: the number it denotes, where
/// `s` holds 25 or 26 characters, each is a digit, and the number fits in
/// 128 bits.
pub open spec fn compact_read(s: Seq<char>) -> Option<u128> {
    if (s.len() == COMPACT_LEN || s.len() == COMPACT_MAX_LEN) && all_compact_digits(s)
        && compact_value(s) <= u128::MAX {
        Some(compact_value(s) as u128)
    } else {
        None
    }
}

/// `k` times the digit zero.
pub open spec fn zeros(k: nat) -> Seq<char> {
    Seq::new(k, |i: int| '0')
}

/// `a` and `b` are the same letter, in whatever case, or the same character.
pub open spec fn same_ignoring_case(a: char, b: char) -> bool {
    a == b || (a as u32 + 32 == b as u32 && 65 <= a as u32 <= 90) || (b as u32 + 32 == a as u32
        && 65 <= b as u32 <= 90)
}

/// `s` and `t` are the same text but for the case of their letters.
pub open spec fn same_text_ignoring_case(s: Seq<char>, t: Seq<char>) -> bool {
    s.len() == t.len() && forall|i: int|
        0 <= i < s.len() ==> same_ignoring_case(#[trigger] s[i], t[i])
}

/// Every character of `s` is a decimal digit or a lowercase letter.
pub open spec fn is_lowercase_text(s: Seq<char>) -> bool {
    forall|i: int|
        0 <= i < s.len() ==> 48 <= (#[trigger] s[i]) as u32 <= 57 || 97 <= s[i] as u32 <= 122
}

/// `a` and `b` agree before `i`, where `a` has the smaller character.
pub open spec fn differs_at(a: Seq<char>, b: Seq<char>, i: int) -> bool {
    0 <= i < a.len() && i < b.len() && a.take(i) == b.take(i) && (a[i] as u32) < (b[i] as u32)
}

/// `a` comes before `b` in the order of a dictionary: it is a proper
/// beginning of `b`, or has the smaller character where they first differ.
pub open spec fn text_lt(a: Seq<char>, b: Seq<char>) -> bool {
    (a.len() < b.len() && b.take(a.len() as int) == a) || exists|i: int| differs_at(a, b, i)
}

/// 32 to the power `k`.
pub open spec fn pow32(k: nat) -> nat
    decreases k,
{
    if k == 0 {
        1
    } else {
        32 * pow32((k - 1) as nat)
    }
}

/// A digit's character is read back as that digit.
pub proof fn lemma_digit_round_trip(d: int)
    requires
        0 <= d < 32,
    ensures
        compact_digit_value(compact_digit(d)) == d,
        97 <= compact_digit(d) as u32 <= 122 || 48 <= compact_digit(d) as u32 <= 57,
{
}

/// A number below `32^k` has at most `k` digits.
pub proof fn lemma_digits_len(v: nat, k: nat)
    requires
        k >= 1,
        v < pow32(k),
    ensures
        1 <= compact_digits(v).len() <= k,
    decreases v,
{
    if v >= 32 {
        assert(pow32(1) == 32) by {
            reveal_with_fuel(pow32, 2);
        }
        assert(k >= 2);
        assert(pow32(k) == 32 * pow32((k - 1) as nat));
        assert(v / 32 < pow32((k - 1) as nat)) by (nonlinear_arith)
            requires
                v < 32 * pow32((k - 1) as nat),
        ;
        lemma_digits_len(v / 32, (k - 1) as nat);
    }
}

/// Every 128-bit value lies below `32^26`.
pub proof fn lemma_pow32_26()
    ensures
        pow32(26) > u128::MAX,
{
    reveal_with_fuel(pow32, 27);
}

/// 25 digits hold the values below `COMPACT_LONG_FROM`.
pub proof fn lemma_pow32_25()
    ensures
        pow32(25) == COMPACT_LONG_FROM,
        pow32(26) == 32 * pow32(25),
{
    reveal_with_fuel(pow32, 26);
}

/// A number from `32^k` on has more than `k` digits.
pub proof fn lemma_digits_len_least(v: nat, k: nat)
    requires
        v >= pow32(k),
    ensures
        compact_digits(v).len() > k,
    decreases k,
{
    if k > 0 {
        lemma_pow32_positive((k - 1) as nat);
        assert(v / 32 >= pow32((k - 1) as nat)) by (nonlinear_arith)
            requires
                v >= 32 * pow32((k - 1) as nat),
        ;
        lemma_digits_len_least(v / 32, (k - 1) as nat);
    }
}

/// A power of 32 is not 0.
pub proof fn lemma_pow32_positive(k: nat)
    ensures
        pow32(k) > 0,
    decreases k,
{
    if k > 0 {
        lemma_pow32_positive((k - 1) as nat);
    }
}

/// The `n` last digits of `v` are `n` digits, and denote `v` where `v` is
/// below `32^n`.
pub proof fn lemma_fixed_digits_value(v: nat, n: nat)
    ensures
        fixed_digits(v, n).len() == n,
        all_compact_digits(fixed_digits(v, n)),
        v < pow32(n) ==> compact_value(fixed_digits(v, n)) == v,
    decreases n,
{
    let s = fixed_digits(v, n);
    if n > 0 {
        let m = (n - 1) as nat;
        lemma_fixed_digits_value(v / 32, m);
        lemma_digit_round_trip((v % 32) as int);
        assert(s.drop_last() =~= fixed_digits(v / 32, m));
        if v < pow32(n) {
            assert(v / 32 < pow32(m)) by (nonlinear_arith)
                requires
                    v < 32 * pow32(m),
            ;
        }
    }
}

/// The digits of a number, with zeros before them to make `n`, are its `n`
/// last digits.
pub proof fn lemma_padded_digits(v: nat, n: nat)
    requires
        compact_digits(v).len() <= n,
    ensures
        zeros((n - compact_digits(v).len()) as nat) + compact_digits(v) == fixed_digits(v, n),
    decreases n,
{
    let d = compact_digits(v);
    let m = (n - 1) as nat;
    if v < 32 {
        lemma_fixed_zero(m);
        assert(v / 32 == 0);
        assert(zeros(m) + d =~= zeros(m).push(compact_digit(v as int)));
    } else {
        let q = compact_digits(v / 32);
        lemma_padded_digits(v / 32, m);
        assert(zeros((n - d.len()) as nat) + d =~= (zeros((m - q.len()) as nat) + q).push(
            compact_digit((v % 32) as int),
        ));
    }
}

/// The `n` last digits of 0 are zeros.
pub proof fn lemma_fixed_zero(n: nat)
    ensures
        fixed_digits(0, n) == zeros(n),
    decreases n,
{
    if n > 0 {
        lemma_fixed_zero((n - 1) as nat);
        assert(fixed_digits(0, n) =~= zeros(n));
    } else {
        assert(fixed_digits(0, n) =~= zeros(n));
    }
}

/// Digits denote a number below 32 to the power of their count.
pub proof fn lemma_value_bound(s: Seq<char>)
    requires
        all_compact_digits(s),
    ensures
        compact_value(s) < pow32(s.len()),
    decreases s.len(),
{
    if s.len() > 0 {
        let t = s.drop_last();
        assert forall|i: int| 0 <= i < t.len() implies compact_digit_value(#[trigger] t[i])
            >= 0 by {
            assert(t[i] == s[i]);
        }
        lemma_value_bound(t);
        assert(0 <= compact_digit_value(s.last()) < 32);
    }
}

/// The number that digits denote is the first digit times 32 to the power
/// of the count of the others, and the number that the others denote.
pub proof fn lemma_value_by_first(s: Seq<char>)
    requires
        s.len() >= 1,
        all_compact_digits(s),
    ensures
        all_compact_digits(s.subrange(1, s.len() as int)),
        compact_value(s) == compact_digit_value(s[0]) * pow32((s.len() - 1) as nat)
            + compact_value(s.subrange(1, s.len() as int)),
    decreases s.len(),
{
    let rest = s.subrange(1, s.len() as int);
    assert forall|i: int| 0 <= i < rest.len() implies compact_digit_value(#[trigger] rest[i])
        >= 0 by {
        assert(rest[i] == s[i + 1]);
    }
    assert(compact_digit_value(s[0]) >= 0);
    assert(compact_digit_value(s.last()) >= 0);
    if s.len() == 1 {
        assert(s.drop_last().len() == 0);
        assert(compact_value(s.drop_last()) == 0);
        assert(compact_value(rest) == 0);
        assert(pow32(0) == 1);
        assert(s.last() == s[0]);
        assert(compact_digit_value(s[0]) * pow32(0) == compact_digit_value(s[0]));
    } else {
        let t = s.drop_last();
        assert forall|i: int| 0 <= i < t.len() implies compact_digit_value(#[trigger] t[i])
            >= 0 by {
            assert(t[i] == s[i]);
        }
        lemma_value_by_first(t);
        assert(rest.drop_last() =~= t.subrange(1, t.len() as int));
        assert(rest.last() == s.last());
        let a = compact_digit_value(s[0]);
        let p = pow32((t.len() - 1) as nat);
        let r = compact_value(rest.drop_last());
        let l = compact_digit_value(s.last());
        assert(t[0] == s[0]);
        assert(compact_value(t) == a * p + r);
        assert(compact_value(s) == compact_value(t) * 32 + l);
        assert(compact_value(rest) == r * 32 + l);
        assert(pow32((s.len() - 1) as nat) == 32 * p);
        assert((a * p + r) * 32 + l == a * (32 * p) + (r * 32 + l)) by (nonlinear_arith);
    }
}

/// Whether `c` stands for a digit of at most 7, as the first of 26 digits
/// must for the number to fit in 128 bits.
pub fn is_short_digit(c: char) -> (b: bool)
    ensures
        b == (0 <= compact_digit_value(c) <= 7),
{
    let n: u32 = c as u32;
    (48 <= n && n <= 55) || n == 111 || n == 79 || n == 105 || n == 73 || n == 108 || n == 76
}

} // verus!
