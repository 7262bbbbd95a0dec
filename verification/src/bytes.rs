//! The identifier's 16 bytes, most significant first.

use vstd::arithmetic::div_mod::lemma_div_denominator;
use vstd::prelude::*;

verus! {

/// 256 to the power `k`.
pub open spec fn pow256(k: nat) -> nat
    decreases k,
{
    if k == 0 {
        1
    } else {
        256 * pow256((k - 1) as nat)
    }
}

/// The last `n` bytes of `v`, most significant first.
pub open spec fn be_bytes(v: nat, n: nat) -> Seq<u8>
    decreases n,
{
    if n == 0 {
        Seq::empty()
    } else {
        be_bytes(v / 256, (n - 1) as nat).push((v % 256) as u8)
    }
}

/// The number that the bytes of `s` denote, most significant first.
pub open spec fn be_value(s: Seq<u8>) -> nat
    decreases s.len(),
{
    if s.len() == 0 {
        0
    } else {
        be_value(s.drop_last()) * 256 + s.last() as nat
    }
}

/// Every 128-bit value lies below `256^16`.
pub proof fn lemma_pow256_16()
    ensures
        pow256(16) == u128::MAX + 1,
{
    reveal_with_fuel(pow256, 17);
}

/// A power of 256 is not 0.
pub proof fn lemma_pow256_positive(k: nat)
    ensures
        pow256(k) > 0,
    decreases k,
{
    if k > 0 {
        lemma_pow256_positive((k - 1) as nat);
    }
}

/// The powers of 256 grow with the exponent.
pub proof fn lemma_pow256_le(a: nat, b: nat)
    requires
        a <= b,
    ensures
        pow256(a) <= pow256(b),
    decreases b,
{
    if a < b {
        lemma_pow256_le(a, (b - 1) as nat);
    }
}

/// `n` bytes denote a number below `256^n`.
pub proof fn lemma_be_value_bound(s: Seq<u8>)
    ensures
        be_value(s) < pow256(s.len()),
    decreases s.len(),
{
    if s.len() > 0 {
        lemma_be_value_bound(s.drop_last());
    }
}

/// The `n` last bytes of `v` are `n` bytes, the one at `j` being the byte of
/// `v` of weight `256^(n-1-j)`; they denote `v` where `v` is below `256^n`.
pub proof fn lemma_be_bytes(v: nat, n: nat)
    ensures
        be_bytes(v, n).len() == n,
        forall|j: int|
            0 <= j < n ==> #[trigger] be_bytes(v, n)[j] == (v / pow256((n - 1 - j) as nat)
                % 256) as u8,
        v < pow256(n) ==> be_value(be_bytes(v, n)) == v,
    decreases n,
{
    let s = be_bytes(v, n);
    if n > 0 {
        let m = (n - 1) as nat;
        lemma_be_bytes(v / 256, m);
        assert(s.drop_last() =~= be_bytes(v / 256, m));
        assert forall|j: int| 0 <= j < n implies #[trigger] s[j] == (v / pow256((n - 1 - j) as nat)
            % 256) as u8 by {
            if j < n - 1 {
                let k = (m - 1 - j) as nat;
                lemma_pow256_positive(k);
                lemma_div_denominator(v as int, 256, pow256(k) as int);
                assert(pow256((n - 1 - j) as nat) == 256 * pow256(k));
                assert(s[j] == be_bytes(v / 256, m)[j]);
                assert((v / 256) / pow256(k) == v / (256 * pow256(k)));
                assert(be_bytes(v / 256, m)[j] == ((v / 256) / pow256(k) % 256) as u8);
            } else {
                assert(pow256(0) == 1);
                assert(v / pow256(0) == v);
                assert(s[j] == (v % 256) as u8);
            }
        }
        if v < pow256(n) {
            assert(v / 256 < pow256(m)) by (nonlinear_arith)
                requires
                    v < 256 * pow256(m),
            ;
        }
    }
}

/// Bytes that denote a number are the bytes of that number.
pub proof fn lemma_be_value_bytes(s: Seq<u8>)
    ensures
        be_bytes(be_value(s), s.len()) =~= s,
    decreases s.len(),
{
    if s.len() > 0 {
        lemma_be_value_bytes(s.drop_last());
        let v = be_value(s);
        let w = be_value(s.drop_last());
        assert(v / 256 == w && v % 256 == s.last() as nat) by (nonlinear_arith)
            requires
                v == w * 256 + s.last() as nat,
                (s.last() as nat) < 256,
        ;
    }
}

} // verus!
