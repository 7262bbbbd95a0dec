//! The hex form: 32 hexadecimal digits in groups of 8, 4, 4, 4 and 12,
//! with a hyphen between the groups.

use crate::compact::same_ignoring_case;
use uuid::Uuid;
use vstd::prelude::*;

verus! {

/// The error of `uuid` on a text that it cannot read.
#[verifier::external_type_specification]
#[verifier::external_body]
pub struct ExUuidError(uuid::Error);

/// Calls `Uuid::to_string` on the identifier of value `v`. Trusted: the
/// result is the lowercase hyphenated form, 32 digits in five groups.
#[verifier::external_body]
pub(crate) fn format_hex(v: u128) -> (s: String)
    ensures
        s@ == hex_form(v),
{
    Uuid::from_u128(v).to_string()
}

/// Calls `Uuid::try_parse`. Trusted: it succeeds on 32 hexadecimal digits,
/// on the grouped form of 36 characters, and on the grouped form in braces
/// or behind `urn:uuid:`, digits and prefix in either case, and on nothing
/// else; the value is that of the 32 digits.
#[verifier::external_body]
pub(crate) fn parse_hex(s: &str) -> (r: Result<u128, uuid::Error>)
    ensures
        r is Ok <==> wrapped_hex_read(s@) is Some,
        r is Ok ==> wrapped_hex_read(s@) == Some(r->Ok_0),
{
    match Uuid::try_parse(s) {
        Ok(u) => Ok(u.as_u128()),
        Err(e) => Err(e),
    }
}

/// The lowercase character of the hexadecimal digit `d`.
pub open spec fn hex_digit(d: int) -> char {
    if d < 10 {
        ((48 + d) as u8) as char
    } else {
        ((87 + d) as u8) as char
    }
}

/// The hexadecimal digit that `c` stands for, in either case, or -1.
pub open spec fn hex_digit_value(c: char) -> int {
    let n = c as u32 as int;
    if 48 <= n <= 57 {
        n - 48
    } else if 97 <= n <= 102 {
        n - 87
    } else if 65 <= n <= 70 {
        n - 55
    } else {
        -1
    }
}

/// The last `n` hexadecimal digits of `v`, most significant first.
pub open spec fn hex_digits(v: nat, n: nat) -> Seq<char>
    decreases n,
{
    if n == 0 {
        Seq::empty()
    } else {
        hex_digits(v / 16, (n - 1) as nat).push(hex_digit((v % 16) as int))
    }
}

/// Every character of `s` is a hexadecimal digit.
pub open spec fn all_hex_digits(s: Seq<char>) -> bool {
    forall|i: int| 0 <= i < s.len() ==> hex_digit_value(#[trigger] s[i]) >= 0
}

/// The number that the digits of `s` denote in base 16.
pub open spec fn hex_value(s: Seq<char>) -> nat
    decreases s.len(),
{
    if s.len() == 0 {
        0
    } else {
        (hex_value(s.drop_last()) * 16 + hex_digit_value(s.last())) as nat
    }
}

/// 32 digits set in the five groups, with hyphens between them.
pub open spec fn hyphenate(d: Seq<char>) -> Seq<char> {
    d.subrange(0, 8).push('-') + d.subrange(8, 12).push('-') + d.subrange(12, 16).push('-')
        + d.subrange(16, 20).push('-') + d.subrange(20, 32)
}

/// `s` holds 36 characters with a hyphen after each of the first four groups.
pub open spec fn is_grouped(s: Seq<char>) -> bool {
    s.len() == 36 && s[8] == '-' && s[13] == '-' && s[18] == '-' && s[23] == '-'
}

/// The 32 characters of the five groups of `s`.
pub open spec fn groups_of(s: Seq<char>) -> Seq<char> {
    s.subrange(0, 8) + s.subrange(9, 13) + s.subrange(14, 18) + s.subrange(19, 23) + s.subrange(
        24,
        36,
    )
}

/// The hex form of `v`.
pub open spec fn hex_form(v: u128) -> Seq<char> {
    hyphenate(hex_digits(v as nat, 32))
}

/// The value of 32 characters, if all of them are hexadecimal digits.
pub open spec fn digits_read(d: Seq<char>) -> Option<u128> {
    if d.len() == 32 && all_hex_digits(d) {
        Some((hex_value(d) % (u128::MAX as nat + 1)) as u128)
    } else {
        None
    }
}

/// What reading `s` as a hex form gives: the value of its 32 digits, where
/// `s` is 32 digits, or 36 characters in the five groups.
pub open spec fn hex_read(s: Seq<char>) -> Option<u128> {
    if s.len() == 32 {
        digits_read(s)
    } else if is_grouped(s) {
        digits_read(groups_of(s))
    } else {
        None
    }
}

/// `s` begins with `urn:uuid:`, in whatever case.
pub open spec fn has_urn_prefix(s: Seq<char>) -> bool {
    s.len() >= 9 && same_ignoring_case(s[0], 'u') && same_ignoring_case(s[1], 'r')
        && same_ignoring_case(s[2], 'n') && s[3] == ':' && same_ignoring_case(s[4], 'u')
        && same_ignoring_case(s[5], 'u') && same_ignoring_case(s[6], 'i') && same_ignoring_case(
        s[7],
        'd',
    ) && s[8] == ':'
}

/// What the general reader of identifiers gives for `s`: besides the two hex
/// forms it takes the grouped form in braces or behind `urn:uuid:`.
pub open spec fn wrapped_hex_read(s: Seq<char>) -> Option<u128> {
    if s.len() == 32 || s.len() == 36 {
        hex_read(s)
    } else if s.len() == 38 && s[0] == '{' && s[37] == '}' {
        hex_read(s.subrange(1, 37))
    } else if s.len() == 45 && has_urn_prefix(s) {
        hex_read(s.subrange(9, 45))
    } else {
        None
    }
}

/// 16 to the power `k`.
pub open spec fn pow16(k: nat) -> nat
    decreases k,
{
    if k == 0 {
        1
    } else {
        16 * pow16((k - 1) as nat)
    }
}

/// The `n` last digits of `v` are digits, `n` of them, and denote `v`
/// where `v` is below `16^n`.
pub proof fn lemma_hex_digits_value(v: nat, n: nat)
    requires
        v < pow16(n),
    ensures
        hex_digits(v, n).len() == n,
        all_hex_digits(hex_digits(v, n)),
        hex_value(hex_digits(v, n)) == v,
    decreases n,
{
    let s = hex_digits(v, n);
    if n > 0 {
        assert(v / 16 < pow16((n - 1) as nat)) by (nonlinear_arith)
            requires
                v < 16 * pow16((n - 1) as nat),
        ;
        lemma_hex_digits_value(v / 16, (n - 1) as nat);
        assert(s.drop_last() =~= hex_digits(v / 16, (n - 1) as nat));
        assert(hex_digit_value(hex_digit((v % 16) as int)) == v % 16);
    }
}

/// Every 128-bit value lies below `16^32`.
pub proof fn lemma_pow16_32()
    ensures
        pow16(32) == u128::MAX + 1,
{
    reveal_with_fuel(pow16, 33);
}

/// Taking the groups out of a grouped form gives back its digits.
pub proof fn lemma_groups_of_hyphenate(d: Seq<char>)
    requires
        d.len() == 32,
    ensures
        is_grouped(hyphenate(d)),
        groups_of(hyphenate(d)) =~= d,
{
}

} // verus!
