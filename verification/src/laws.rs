//! What holds between the identifier's forms.

use crate::bytes::{
    be_bytes, be_value, lemma_be_bytes, lemma_be_value_bound, lemma_be_value_bytes,
    lemma_pow256_16,
};
use crate::compact::{
    all_compact_digits, compact_digit_value, compact_form, compact_len, compact_read,
    compact_value, differs_at, fixed_digits, is_lowercase_text, lemma_digit_round_trip,
    lemma_fixed_digits_value, lemma_pow32_25, lemma_pow32_26, pow32, same_ignoring_case,
    same_text_ignoring_case, text_lt, COMPACT_LONG_FROM,
};
use crate::hex::{
    hex_digits, hex_form, hex_read, lemma_groups_of_hyphenate, lemma_hex_digits_value,
    lemma_pow16_32,
};
use crate::resolver::{resolved, TokenView};
use crate::uuid32::any_read;
use vstd::prelude::*;

verus! {

/// The compact form of a value has 25 characters, or 26 from 32^25 on, and
/// reading it gives the value back.
pub proof fn compact_round_trip(v: u128)
    ensures
        compact_form(v).len() == compact_len(v),
        compact_read(compact_form(v)) == Some(v),
{
    lemma_pow32_25();
    lemma_pow32_26();
    lemma_fixed_digits_value(v as nat, compact_len(v));
}

/// Reading the hex form of a value gives the value back.
pub proof fn hex_round_trip(v: u128)
    ensures
        hex_form(v).len() == 36,
        hex_read(hex_form(v)) == Some(v),
{
    lemma_pow16_32();
    lemma_hex_digits_value(v as nat, 32);
    lemma_groups_of_hyphenate(hex_digits(v as nat, 32));
}

/// Through either form a value comes back the same, and the reader of both
/// forms gives it back from each.
pub proof fn forms_agree(v: u128)
    ensures
        compact_read(compact_form(v)) == hex_read(hex_form(v)),
        any_read(compact_form(v)) == Some(v),
        any_read(hex_form(v)) == Some(v),
{
    compact_round_trip(v);
    hex_round_trip(v);
    forms_disjoint(hex_form(v));
}

/// No text is in both forms, so the reader of both forms gives the same
/// whichever form it tries first.
pub proof fn forms_disjoint(s: Seq<char>)
    ensures
        !(compact_read(s) is Some && hex_read(s) is Some),
        any_read(s) == if hex_read(s) is Some {
            hex_read(s)
        } else {
            compact_read(s)
        },
{
}

/// Two texts that differ only in the case of their letters are read as the
/// same compact form, or neither is one.
pub proof fn compact_read_ignores_case(s: Seq<char>, t: Seq<char>)
    requires
        same_text_ignoring_case(s, t),
    ensures
        compact_read(s) == compact_read(t),
{
    lemma_value_ignores_case(s, t);
}

/// Texts that differ only in case hold digits at the same places and denote
/// the same number.
proof fn lemma_value_ignores_case(s: Seq<char>, t: Seq<char>)
    requires
        same_text_ignoring_case(s, t),
    ensures
        all_compact_digits(s) == all_compact_digits(t),
        compact_value(s) == compact_value(t),
    decreases s.len(),
{
    assert forall|i: int| 0 <= i < s.len() implies compact_digit_value(#[trigger] s[i])
        == compact_digit_value(t[i]) by {
        assert(same_text_ignoring_case(s, t));
    }
    if all_compact_digits(s) {
        assert forall|i: int| 0 <= i < t.len() implies compact_digit_value(#[trigger] t[i])
            >= 0 by {
            assert(compact_digit_value(s[i]) >= 0);
        }
    }
    if all_compact_digits(t) {
        assert forall|i: int| 0 <= i < s.len() implies compact_digit_value(#[trigger] s[i])
            >= 0 by {
            assert(compact_digit_value(t[i]) >= 0);
        }
    }
    if s.len() > 0 {
        let a = s.drop_last();
        let b = t.drop_last();
        assert forall|i: int| 0 <= i < a.len() implies same_ignoring_case(
            #[trigger] a[i],
            b[i],
        ) by {
            assert(a[i] == s[i] && b[i] == t[i]);
        }
        lemma_value_ignores_case(a, b);
        assert(compact_digit_value(s.last()) == compact_digit_value(t.last()));
    }
}

/// The compact form of a value holds decimal digits and lowercase letters
/// only, whatever the case of the text that the value was read from.
pub proof fn compact_form_is_lowercase(v: u128)
    ensures
        is_lowercase_text(compact_form(v)),
{
    lemma_digits_lowercase(v as nat, compact_len(v));
}

proof fn lemma_digits_lowercase(v: nat, n: nat)
    ensures
        is_lowercase_text(fixed_digits(v, n)),
    decreases n,
{
    if n > 0 {
        lemma_digits_lowercase(v / 32, (n - 1) as nat);
        lemma_digit_round_trip((v % 32) as int);
    }
}

/// Of two numbers written in as many digits, the smaller has the smaller
/// digit where the two first differ. Returns that place.
proof fn lemma_same_length_order(a: nat, b: nat, n: nat) -> (i: int)
    requires
        a < b < pow32(n),
    ensures
        differs_at(fixed_digits(a, n), fixed_digits(b, n), i),
    decreases n,
{
    let da = fixed_digits(a, n);
    let db = fixed_digits(b, n);
    lemma_fixed_digits_value(a, n);
    lemma_fixed_digits_value(b, n);
    assert(n > 0);
    let m = (n - 1) as nat;
    let qa = a / 32;
    let qb = b / 32;
    lemma_fixed_digits_value(qa, m);
    lemma_fixed_digits_value(qb, m);
    assert(da.take(m as int) =~= fixed_digits(qa, m));
    assert(db.take(m as int) =~= fixed_digits(qb, m));
    if qa == qb {
        m as int
    } else {
        assert(qb < pow32(m)) by (nonlinear_arith)
            requires
                b < 32 * pow32(m),
                qb == b / 32,
        ;
        let i = lemma_same_length_order(qa, qb, m);
        assert(da.take(i) =~= fixed_digits(qa, m).take(i));
        assert(db.take(i) =~= fixed_digits(qb, m).take(i));
        i
    }
}

/// Of two texts at most one comes before the other, and none before itself.
pub proof fn text_order_is_strict(a: Seq<char>, b: Seq<char>)
    requires
        text_lt(a, b),
    ensures
        !text_lt(b, a),
        a != b,
{
    if a.len() < b.len() && b.take(a.len() as int) == a {
        assert forall|j: int| !differs_at(b, a, j) by {
            if 0 <= j < a.len() {
                assert(b.take(a.len() as int)[j] == b[j]);
            }
        }
    } else {
        let i = choose|i: int| differs_at(a, b, i);
        assert(differs_at(a, b, i));
        if b.len() < a.len() && a.take(b.len() as int) == b {
            assert(a.take(b.len() as int)[i] == a[i]);
        }
        assert forall|j: int| !differs_at(b, a, j) by {
            if differs_at(b, a, j) {
                if j < i {
                    assert(a.take(i)[j] == b.take(i)[j]);
                } else if i < j {
                    assert(a.take(j)[i] == b.take(j)[i]);
                }
            }
        }
    }
}

/// The compact forms of two values of equal length stand in the order of a
/// dictionary as the values do. That is so for every two values below
/// 32^25, whose forms have 25 characters, and for every two from 32^25 on,
/// whose forms have 26.
pub proof fn compact_order(v1: u128, v2: u128)
    requires
        v1 < v2,
        (v1 < COMPACT_LONG_FROM) == (v2 < COMPACT_LONG_FROM),
    ensures
        compact_form(v1).len() == compact_form(v2).len(),
        text_lt(compact_form(v1), compact_form(v2)),
{
    lemma_pow32_25();
    lemma_pow32_26();
    lemma_fixed_digits_value(v1 as nat, compact_len(v1));
    lemma_fixed_digits_value(v2 as nat, compact_len(v2));
    let i = lemma_same_length_order(v1 as nat, v2 as nat, compact_len(v1));
}

/// The compact forms of a value below 32^25 and of one from 32^25 on: the
/// first is the shorter. It comes first in the order of a dictionary where
/// the smaller value does not exceed the larger without its last digit,
/// and after it else, as the form of 32^25 - 1 comes after that of 32^25.
pub proof fn compact_order_across_lengths(v1: u128, v2: u128)
    requires
        v1 < COMPACT_LONG_FROM <= v2,
    ensures
        compact_form(v1).len() == 25,
        compact_form(v2).len() == 26,
        v1 <= v2 / 32 ==> text_lt(compact_form(v1), compact_form(v2)),
        v1 > v2 / 32 ==> text_lt(compact_form(v2), compact_form(v1)),
{
    lemma_pow32_25();
    lemma_pow32_26();
    let f1 = compact_form(v1);
    let f2 = compact_form(v2);
    let w = v2 as nat / 32;
    lemma_fixed_digits_value(v1 as nat, 25);
    lemma_fixed_digits_value(v2 as nat, 26);
    lemma_fixed_digits_value(w, 25);
    assert(f2.take(25) =~= fixed_digits(w, 25));
    if (v1 as nat) < w {
        let i = lemma_same_length_order(v1 as nat, w, 25);
        assert(fixed_digits(w, 25).take(i) =~= f2.take(i));
        assert(differs_at(f1, f2, i));
    } else if v1 as nat > w {
        let i = lemma_same_length_order(w, v1 as nat, 25);
        assert(fixed_digits(w, 25).take(i) =~= f2.take(i));
        assert(differs_at(f2, f1, i));
    }
}

/// A token that is one form of a value resolves to the other form of it, so
/// resolving what was shown for an identifier shows the identifier again.
pub proof fn resolve_swaps_forms(v: u128)
    ensures
        resolved(hex_form(v)) == (TokenView::Converted {
            original: hex_form(v),
            other_form: compact_form(v),
            numeric_value: v,
        }),
        resolved(compact_form(v)) == (TokenView::Converted {
            original: compact_form(v),
            other_form: hex_form(v),
            numeric_value: v,
        }),
{
    compact_round_trip(v);
    hex_round_trip(v);
    forms_disjoint(compact_form(v));
}

/// The 16 bytes of a value denote it, and 16 bytes are the bytes of the
/// value that they denote.
pub proof fn bytes_round_trip(v: u128, b: Seq<u8>)
    requires
        b.len() == 16,
    ensures
        be_bytes(v as nat, 16).len() == 16,
        be_value(be_bytes(v as nat, 16)) == v,
        be_value(b) <= u128::MAX,
        be_bytes(be_value(b), 16) == b,
{
    lemma_pow256_16();
    lemma_be_bytes(v as nat, 16);
    lemma_be_value_bound(b);
    lemma_be_value_bytes(b);
}

} // verus!
