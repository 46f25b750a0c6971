//! Facts about the bits of a single `u64` word.
use vstd::prelude::*;

verus! {

/// Bit `j` of the word `w` is set (`j` counts from the least significant bit).
pub open spec fn word_bit(w: u64, j: int) -> bool {
    0 <= j < 64 && (w >> (j as u64)) & 1u64 == 1u64
}

proof fn bv_single(b: u64, k: u64)
    by (bit_vector)
    requires
        b < 64,
        k < 64,
    ensures
        ((1u64 << b) >> k) & 1u64 == 1u64 <==> k == b,
{
}

proof fn bv_or(a: u64, c: u64, k: u64)
    by (bit_vector)
    ensures
        ((a | c) >> k) & 1u64 == 1u64 <==> ((a >> k) & 1u64 == 1u64 || (c >> k) & 1u64 == 1u64),
{
}

proof fn bv_and(a: u64, c: u64, k: u64)
    by (bit_vector)
    ensures
        ((a & c) >> k) & 1u64 == 1u64 <==> ((a >> k) & 1u64 == 1u64 && (c >> k) & 1u64 == 1u64),
{
}

proof fn bv_not(a: u64, k: u64)
    by (bit_vector)
    requires
        k < 64,
    ensures
        ((!a) >> k) & 1u64 == 1u64 <==> (a >> k) & 1u64 != 1u64,
{
}

proof fn bv_zero(k: u64)
    by (bit_vector)
    ensures
        (0u64 >> k) & 1u64 != 1u64,
{
}

proof fn bv_shl(w: u64, s: u64, k: u64)
    by (bit_vector)
    requires
        s < 64,
        k < 64,
    ensures
        ((w << s) >> k) & 1u64 == 1u64 <==> (s <= k && (w >> ((k - s) as u64)) & 1u64 == 1u64),
{
}

proof fn bv_shr(w: u64, s: u64, k: u64)
    by (bit_vector)
    requires
        s < 64,
        k < 64,
    ensures
        ((w >> s) >> k) & 1u64 == 1u64 <==> (k + s < 64 && (w >> ((k + s) as u64)) & 1u64
            == 1u64),
{
}

proof fn bv_clear_lowest(w: u64, t: u64, k: u64)
    by (bit_vector)
    requires
        t < 64,
        k < 64,
        (w >> t) & 1u64 == 1u64,
        w << ((64 - t) as u64) == 0,
    ensures
        w != 0,
        ((w & ((w - 1) as u64)) >> k) & 1u64 == 1u64 <==> ((w >> k) & 1u64 == 1u64 && k != t),
{
}

proof fn bv_xor(a: u64, c: u64, k: u64)
    by (bit_vector)
    ensures
        a != c ==> a ^ c != 0,
        ((a ^ c) >> k) & 1u64 == 1u64 ==> (((a >> k) & 1u64 == 1u64) != ((c >> k) & 1u64
            == 1u64)),
{
}

pub proof fn lemma_bit_single(b: u64, j: int)
    requires
        b < 64,
    ensures
        word_bit(1u64 << b, j) <==> j == b,
{
    if 0 <= j < 64 {
        bv_single(b, j as u64);
    }
}

pub proof fn lemma_bit_or(a: u64, c: u64, j: int)
    ensures
        word_bit(a | c, j) <==> (word_bit(a, j) || word_bit(c, j)),
{
    if 0 <= j < 64 {
        bv_or(a, c, j as u64);
    }
}

pub proof fn lemma_bit_and(a: u64, c: u64, j: int)
    ensures
        word_bit(a & c, j) <==> (word_bit(a, j) && word_bit(c, j)),
{
    if 0 <= j < 64 {
        bv_and(a, c, j as u64);
    }
}

pub proof fn lemma_bit_not(a: u64, j: int)
    requires
        0 <= j < 64,
    ensures
        word_bit(!a, j) <==> !word_bit(a, j),
{
    bv_not(a, j as u64);
}

pub proof fn lemma_bit_zero(j: int)
    ensures
        !word_bit(0u64, j),
{
    if 0 <= j < 64 {
        bv_zero(j as u64);
    }
}

/// Bit `j` of `w << s` is bit `j - s` of `w`.
pub proof fn lemma_bit_shl(w: u64, s: u64, j: int)
    requires
        s < 64,
    ensures
        word_bit(w << s, j) <==> (0 <= j < 64 && word_bit(w, j - s)),
{
    if 0 <= j < 64 {
        bv_shl(w, s, j as u64);
    }
}

/// Bit `j` of `w >> s` is bit `j + s` of `w`.
pub proof fn lemma_bit_shr(w: u64, s: u64, j: int)
    requires
        s < 64,
    ensures
        word_bit(w >> s, j) <==> (0 <= j && word_bit(w, j + s)),
{
    if 0 <= j < 64 {
        bv_shr(w, s, j as u64);
    }
}

/// A word is zero exactly when none of its bits is set.
pub proof fn lemma_word_zero(w: u64)
    ensures
        w == 0 <==> forall|j: int| !#[trigger] word_bit(w, j),
{
    if w == 0 {
        assert forall|j: int| !#[trigger] word_bit(w, j) by {
            lemma_bit_zero(j);
        }
    } else {
        lemma_lowest_bit(w);
    }
}

/// The lowest set bit of a nonzero word is its count of trailing zeros, and
/// `w & (w - 1)` clears exactly that bit.
pub proof fn lemma_lowest_bit(w: u64)
    requires
        w != 0,
    ensures
        w.trailing_zeros() < 64,
        word_bit(w, w.trailing_zeros() as int),
        forall|j: int| 0 <= j < w.trailing_zeros() ==> !#[trigger] word_bit(w, j),
        forall|j: int|
            #[trigger] word_bit(w & ((w - 1) as u64), j) <==> (word_bit(w, j) && j
                != w.trailing_zeros() as int),
{
    vstd::std_specs::bits::axiom_u64_trailing_zeros(w);
    let t = w.trailing_zeros() as u64;
    assert forall|j: int| 0 <= j < w.trailing_zeros() implies !#[trigger] word_bit(w, j) by {
        let k = j as u64;
        assert((w >> k) & 1u64 == 0u64);
    }
    assert forall|j: int|
        #[trigger] word_bit(w & ((w - 1) as u64), j) <==> (word_bit(w, j) && j != t as int) by {
        if 0 <= j < 64 {
            bv_clear_lowest(w, t, j as u64);
        }
    }
}

/// Two words with the same bits are equal.
pub proof fn lemma_word_ext(a: u64, c: u64)
    requires
        forall|j: int| 0 <= j < 64 ==> #[trigger] word_bit(a, j) == word_bit(c, j),
    ensures
        a == c,
{
    if a != c {
        let x = a ^ c;
        bv_xor(a, c, 0);
        lemma_lowest_bit(x);
        let t = x.trailing_zeros() as int;
        bv_xor(a, c, t as u64);
        assert(word_bit(a, t) == word_bit(c, t));
    }
}

} // verus!
