//! Values of byte sequences read as little-endian or big-endian integers,
//! and the lemmas that relate concatenation, reversal and zero-stripping
//! to those values.

use vstd::prelude::*;
use vstd::arithmetic::power::{pow, lemma_pow_positive};

verus! {

/// The integer a byte sequence denotes when its first byte is least
/// significant.
pub open spec fn le_val(s: Seq<u8>) -> nat
    decreases s.len(),
{
    if s.len() == 0 {
        0
    } else {
        (s[0] + 256 * le_val(s.drop_first())) as nat
    }
}

/// The integer a byte sequence denotes when its first byte is most
/// significant.
pub open spec fn be_val(s: Seq<u8>) -> nat
    decreases s.len(),
{
    if s.len() == 0 {
        0
    } else {
        (256 * be_val(s.drop_last()) + s.last()) as nat
    }
}

/// A little-endian value is bounded by 256 to the power of the length.
pub proof fn lemma_le_val_bound(s: Seq<u8>)
    ensures
        le_val(s) < pow(256, s.len()),
    decreases s.len(),
{
    if s.len() == 0 {
        assert(pow(256, 0) == 1) by {
            vstd::arithmetic::power::lemma_pow0(256);
        }
    } else {
        lemma_le_val_bound(s.drop_first());
        let p: int = pow(256, (s.len() - 1) as nat);
        lemma_pow_positive(256, (s.len() - 1) as nat);
        assert(pow(256, s.len()) == 256 * p) by {
            reveal(pow);
        }
        assert(s[0] + 256 * le_val(s.drop_first()) < 256 * p) by (nonlinear_arith)
            requires
                s[0] < 256,
                le_val(s.drop_first()) <= p - 1,
                p >= 1,
        ;
    }
}

/// A sequence of zero bytes denotes zero.
pub proof fn lemma_le_val_zeros(s: Seq<u8>)
    requires
        forall|i: int| 0 <= i < s.len() ==> s[i] == 0,
    ensures
        le_val(s) == 0,
    decreases s.len(),
{
    if s.len() > 0 {
        lemma_le_val_zeros(s.drop_first());
    }
}

/// Concatenation splits a little-endian value: the left part keeps its
/// value and the right part is scaled by 256 to the left length.
pub proof fn lemma_le_val_concat(a: Seq<u8>, b: Seq<u8>)
    ensures
        le_val(a + b) == le_val(a) + pow(256, a.len()) * le_val(b),
    decreases a.len(),
{
    if a.len() == 0 {
        assert(a + b =~= b);
        assert(pow(256, 0) == 1) by {
            vstd::arithmetic::power::lemma_pow0(256);
        }
    } else {
        lemma_le_val_concat(a.drop_first(), b);
        assert((a + b).drop_first() =~= a.drop_first() + b);
        let p: int = pow(256, (a.len() - 1) as nat);
        assert(pow(256, a.len()) == 256 * p) by {
            reveal(pow);
        }
        let x: int = le_val(a.drop_first()) as int;
        let y: int = le_val(b) as int;
        assert(256 * (x + p * y) == 256 * x + (256 * p) * y) by (nonlinear_arith);
    }
}

/// Trailing zero bytes do not change a little-endian value.
pub proof fn lemma_le_val_pad(a: Seq<u8>, b: Seq<u8>)
    requires
        forall|i: int| 0 <= i < b.len() ==> b[i] == 0,
    ensures
        le_val(a + b) == le_val(a),
{
    lemma_le_val_concat(a, b);
    lemma_le_val_zeros(b);
}

/// Reading a sequence backwards little-endian gives the big-endian value.
pub proof fn lemma_le_val_of_reversed(r: Seq<u8>, s: Seq<u8>)
    requires
        r.len() == s.len(),
        forall|i: int| 0 <= i < s.len() ==> r[i] == s[s.len() - 1 - i],
    ensures
        le_val(r) == be_val(s),
    decreases s.len(),
{
    if s.len() > 0 {
        assert(r.drop_first().len() == s.drop_last().len());
        let r2 = r.drop_first();
        let s2 = s.drop_last();
        assert(forall|i: int| 0 <= i < s2.len() ==> r2[i] == s2[s2.len() - 1 - i]);
        lemma_le_val_of_reversed(r.drop_first(), s.drop_last());
        assert(r[0] == s.last());
    }
}

/// The sequence with its leading zero bytes removed.
pub open spec fn strip_zeros(s: Seq<u8>) -> Seq<u8>
    decreases s.len(),
{
    if s.len() == 0 {
        s
    } else if s[0] == 0 {
        strip_zeros(s.drop_first())
    } else {
        s
    }
}

/// The shortest big-endian form of the value of `s`: leading zero bytes
/// removed, except that zero itself keeps a single zero byte.
pub open spec fn min_be(s: Seq<u8>) -> Seq<u8> {
    if strip_zeros(s).len() == 0 {
        seq![0u8]
    } else {
        strip_zeros(s)
    }
}

/// Stripping leading zeros is the same as skipping past them.
pub proof fn lemma_strip_zeros_skip(s: Seq<u8>, k: int)
    requires
        0 <= k <= s.len(),
        forall|j: int| 0 <= j < k ==> s[j] == 0,
        k == s.len() || s[k] != 0,
    ensures
        strip_zeros(s) =~= s.skip(k),
    decreases k,
{
    if k == 0 {
        if s.len() > 0 {
            assert(s[0] != 0);
        }
        assert(s.skip(0) =~= s);
    } else {
        assert(s[0] == 0);
        assert(s.drop_first() =~= s.skip(1));
        lemma_strip_zeros_skip(s.drop_first(), k - 1);
        assert(s.drop_first().skip(k - 1) =~= s.skip(k));
    }
}

/// In sequences of the same length that agree above position `i`, a
/// smaller byte at `i` forces a strictly smaller little-endian value.
pub proof fn lemma_le_val_lt(a: Seq<u8>, b: Seq<u8>, i: int)
    requires
        a.len() == b.len(),
        0 <= i < a.len(),
        forall|j: int| i < j < a.len() ==> a[j] == b[j],
        a[i] < b[i],
    ensures
        le_val(a) < le_val(b),
{
    let n = a.len() as int;
    let tail = a.skip(i + 1);
    assert(tail =~= b.skip(i + 1));
    assert(a =~= a.take(i + 1) + a.skip(i + 1));
    assert(b =~= b.take(i + 1) + b.skip(i + 1));
    lemma_le_val_concat(a.take(i + 1), tail);
    lemma_le_val_concat(b.take(i + 1), tail);
    assert(a.take(i + 1) =~= a.take(i) + seq![a[i]]);
    assert(b.take(i + 1) =~= b.take(i) + seq![b[i]]);
    lemma_le_val_concat(a.take(i), seq![a[i]]);
    lemma_le_val_concat(b.take(i), seq![b[i]]);
    lemma_le_val_singleton(a[i]);
    lemma_le_val_singleton(b[i]);
    lemma_le_val_bound(a.take(i));
    let p: int = pow(256, i as nat);
    lemma_pow_positive(256, i as nat);
    assert(le_val(a.take(i + 1)) < le_val(b.take(i + 1))) by (nonlinear_arith)
        requires
            le_val(a.take(i + 1)) == le_val(a.take(i)) + p * (a[i] as int),
            le_val(b.take(i + 1)) == le_val(b.take(i)) + p * (b[i] as int),
            le_val(a.take(i)) < p,
            le_val(b.take(i)) >= 0,
            a[i] < b[i],
            p >= 1,
    ;
}

/// A single byte denotes its own value.
pub proof fn lemma_le_val_singleton(x: u8)
    ensures
        le_val(seq![x]) == x,
{
    reveal_with_fuel(le_val, 2);
    assert(seq![x].drop_first() =~= Seq::<u8>::empty());
}

} // verus!
